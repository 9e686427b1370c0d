//! A local replica of a remote shared drive: wire decoding, the merge
//! engine that keeps the folder tree consistent, and the changelog with
//! materialised paths that consumers query after a synchronisation.

use vstd::prelude::*;

pub mod changes;
pub mod database;
pub mod fetch;
pub mod model;
pub mod text;

pub use changes::Changes;
pub use model::{ChangedFile, ChangedFolder, ChangedPath, File, Folder, InnerPath, Path};

use crate::database::rows::rows;
use crate::database::state::{clashes, left_out, loaded, StoreView};
use crate::database::tables::{get, in_drive, present};
use crate::database::Store;
use crate::fetch::auth::{RefreshToken, RefreshTokenView, Scope};
use crate::fetch::{changes_view, items_view, Change, FetchBuilder, Fetcher, Item};
use crate::model::Drive;

verus! {

/// Whether two string slices hold the same text.
pub fn str_eq(a: &str, b: &str) -> (r: bool)
    ensures
        r == (a@ == b@),
{
    let x = a.to_owned();
    let y = b.to_owned();
    x == y
}

/// A service account: who asks, and the key that signs for it, as PEM
/// text.
#[derive(Debug)]
pub struct Account {
    pub client_email: String,
    pub private_key: String,
}

impl Account {
    /// An empty token cache of this account for a scope.
    pub fn refresh_token(&self, scope: Scope) -> (r: RefreshToken)
        requires
            scope.wf(),
        ensures
            r@ == (RefreshTokenView { scope: scope@, token: None }),
            r.wf(),
    {
        RefreshToken::new(scope)
    }
}

/// The kinds of failure of a synchronisation.
#[derive(Debug, Copy, Clone, PartialEq, Eq, Structural)]
pub enum ErrorKind {
    Database,
    Network,
    PartialChangeList,
    WhereIsJWK,
    InvalidJWK,
}

/// Why a synchronisation failed.
#[derive(Debug, PartialEq, Eq)]
#[allow(inconsistent_fields)]
pub enum Error {
    /// The storage failed.
    Database { source: database::Error },
    /// The remote store could not be asked.
    Network { source: fetch::Error },
    /// The changes received name an entity that the replica does not hold:
    /// the list of changes was not complete.
    PartialChangeList { source: database::Error },
    /// The key file of the service account could not be read.
    WhereIsJWK { file_name: String },
    /// The key file of the service account is not a key file.
    InvalidJWK { file_name: String },
}

impl Error {
    /// The kind of the failure.
    pub fn kind(&self) -> (r: ErrorKind)
        ensures
            r == match *self {
                Error::Database { .. } => ErrorKind::Database,
                Error::Network { .. } => ErrorKind::Network,
                Error::PartialChangeList { .. } => ErrorKind::PartialChangeList,
                Error::WhereIsJWK { .. } => ErrorKind::WhereIsJWK,
                Error::InvalidJWK { .. } => ErrorKind::InvalidJWK,
            },
    {
        match self {
            Error::Database { .. } => ErrorKind::Database,
            Error::Network { .. } => ErrorKind::Network,
            Error::PartialChangeList { .. } => ErrorKind::PartialChangeList,
            Error::WhereIsJWK { .. } => ErrorKind::WhereIsJWK,
            Error::InvalidJWK { .. } => ErrorKind::InvalidJWK,
        }
    }

    /// Whether the failure is a list of changes that was not complete.
    pub fn is_partial_change_list(&self) -> (r: bool)
        ensures
            r == (*self is PartialChangeList),
    {
        matches!(self, Error::PartialChangeList { .. })
    }

    /// The failure in words.
    pub fn message(&self) -> (r: &'static str)
        ensures
            r@ == match *self {
                Error::Database { .. } => "Database"@,
                Error::Network { .. } => "Network"@,
                Error::PartialChangeList { .. } => "Received a partial change list from Google"@,
                Error::WhereIsJWK { .. } => "Cannot read the Service Account JWK file"@,
                Error::InvalidJWK { .. } => "Invalid Service Account JWK file"@,
            },
    {
        match self {
            Error::Database { .. } => "Database",
            Error::Network { .. } => "Network",
            Error::PartialChangeList { .. } => "Received a partial change list from Google",
            Error::WhereIsJWK { .. } => "Cannot read the Service Account JWK file",
            Error::InvalidJWK { .. } => "Invalid Service Account JWK file",
        }
    }
}

/// The failure of a synchronisation that a failure of the storage makes: a
/// breach of integrity means that the list of changes was not complete.
pub open spec fn from_database(error: database::Error) -> Error {
    match error {
        database::Error::DataIntegrityError => Error::PartialChangeList { source: error },
        _ => Error::Database { source: error },
    }
}

impl From<database::Error> for Error {
    fn from(error: database::Error) -> (r: Error) {
        match error {
            database::Error::DataIntegrityError => Error::PartialChangeList { source: error },
            _ => Error::Database { source: error },
        }
    }
}

impl vstd::std_specs::convert::FromSpecImpl<database::Error> for Error {
    open spec fn obeys_from_spec() -> bool {
        true
    }

    open spec fn from_spec(error: database::Error) -> Error {
        from_database(error)
    }
}

impl From<fetch::Error> for Error {
    fn from(source: fetch::Error) -> (r: Error) {
        Error::Network { source }
    }
}

impl vstd::std_specs::convert::FromSpecImpl<fetch::Error> for Error {
    open spec fn obeys_from_spec() -> bool {
        true
    }

    open spec fn from_spec(source: fetch::Error) -> Error {
        Error::Network { source }
    }
}

/// Which synchronisation took place.
#[derive(Debug, PartialEq, Eq, Structural)]
pub enum SyncKind {
    /// The drive was loaded for the first time. The changelog is empty.
    Full,
    /// The changes since the last cursor were merged. The changelog shows
    /// them.
    Partial,
}

/// How a synchronisation ended: which one took place, and the items of a
/// listing that were left out because their parent never came.
#[derive(Debug)]
pub struct Synced {
    pub kind: SyncKind,
    pub skipped: Vec<Item>,
}

/// What a synchronisation has to ask the remote store for.
#[derive(Debug)]
pub enum SyncStep {
    /// The replica does not hold the drive: ask for the cursor at which
    /// the change feed now stands, then for the name of the drive, then for
    /// the full listing.
    FetchListing,
    /// The replica holds the drive: ask for the changes since its cursor.
    FetchChanges { page_token: String },
}

/// What the remote store delivered for a synchronisation.
#[derive(Debug)]
pub enum Remote {
    /// The cursor, the name of the drive and its full listing.
    Listing { page_token: String, name: String, items: Vec<Item> },
    /// The changes since the cursor of the replica, and the new cursor.
    Changes { changes: Vec<Change>, new_page_token: String },
}

/// The replica of the drives of one account, and what is needed to ask the
/// remote store about them.
pub struct Bernard {
    store: Store,
    fetch: Fetcher,
}

/// A synchronisation that ended well, in this way and with nothing left
/// out.
pub open spec fn ended(r: Result<Synced, Error>, kind: SyncKind) -> bool {
    r matches Ok(out) && out.kind == kind && out.skipped@.len() == 0
}

/// What a synchronisation makes of the replica `before`, once its
/// changelog of drive `d` is cleared, and how it ends.
///
/// Without the drive in the replica, a listing is loaded: a full
/// synchronisation, which hands back the items that it left out. With the
/// drive in the replica, changes are merged: a partial synchronisation,
/// which leaves the replica untouched where the new cursor is the one that
/// the replica has. A merge that breaks the integrity of the replica fails
/// as a partial change list, and what does not fit the state of the replica
/// fails as a failure of the storage; a failure leaves the replica as it
/// was.
pub open spec fn synced(
    before: StoreView,
    d: Seq<char>,
    remote: Remote,
    after: StoreView,
    r: Result<Synced, Error>,
) -> bool {
    let start = before.clear_changelog(d);
    match (get(start.drives, d, d), remote) {
        (None, Remote::Listing { page_token, name, items }) => {
            if clashes(items_view(items@), d) {
                after == start && r == Err::<Synced, Error>(
                    Error::Database { source: database::Error::UnknownError },
                )
            } else {
                &&& loaded(start, d, name@, page_token@, items_view(items@), after)
                &&& r matches Ok(out)
                &&& out.kind == SyncKind::Full
                &&& items_view(out.skipped@) == items_view(items@).filter(left_out(after, d))
            }
        },
        (Some(drive), Remote::Changes { changes, new_page_token }) => {
            if new_page_token@ == drive.page_token {
                after == start && ended(r, SyncKind::Partial)
            } else {
                match start.merge(d, changes_view(changes@), new_page_token@) {
                    Some(merged) => after == merged && ended(r, SyncKind::Partial),
                    None => after == start && r == Err::<Synced, Error>(
                        Error::PartialChangeList { source: database::Error::DataIntegrityError },
                    ),
                }
            }
        },
        _ => after == start && r == Err::<Synced, Error>(
            Error::Database { source: database::Error::UnknownError },
        ),
    }
}

impl Bernard {
    /// The invariant: that of the replica and that of the fetcher.
    pub closed spec fn wf(&self) -> bool {
        self.store.wf() && self.fetch.wf()
    }

    /// The replica, as a value.
    pub closed spec fn store_view(&self) -> StoreView {
        self.store@
    }

    /// What is needed to ask the remote store: the account, the proxy and
    /// the token cache.
    pub closed spec fn fetcher_view(&self) -> Fetcher {
        self.fetch
    }

    /// Starts putting a synchroniser together.
    pub fn builder(database_path: &str, account: Account) -> (r: BernardBuilder)
        ensures
            r.database_path@ == database_path@,
            r.fetch.account == account,
            r.fetch.proxy is None,
    {
        BernardBuilder::new(database_path, account)
    }

    /// Gives the replica back, to be stored.
    pub fn close(self) -> (r: Store)
        requires
            self.wf(),
        ensures
            r@ == self.store_view(),
            r.wf(),
    {
        self.store
    }

    /// The replica.
    pub fn store(&self) -> (r: &Store)
        requires
            self.wf(),
        ensures
            r@ == self.store_view(),
            r.wf(),
    {
        &self.store
    }

    /// What is needed to ask the remote store.
    pub fn fetcher(&mut self) -> (r: &mut Fetcher)
        requires
            old(self).wf(),
        ensures
            *r == old(self).fetcher_view(),
            *final(r) == final(self).fetcher_view(),
            r.wf(),
            final(r).wf() ==> final(self).wf(),
            final(self).store_view() == old(self).store_view(),
    {
        &mut self.fetch
    }

    /// Clears the changelog of a drive.
    pub fn clear_changelog(&mut self, drive_id: &str)
        requires
            old(self).wf(),
        ensures
            final(self).wf(),
            final(self).fetcher_view() == old(self).fetcher_view(),
            final(self).store_view() == old(self).store_view().clear_changelog(drive_id@),
    {
        database::clear_changelog(&mut self.store, drive_id);
    }

    /// The drive with this id, if the replica holds it.
    pub fn get_drive(&self, drive_id: &str) -> (r: Option<Drive>)
        requires
            self.wf(),
        ensures
            match r {
                Some(drive) => get(self.store_view().drives, drive_id@, drive_id@) == Some(drive@),
                None => !present(self.store_view().drives, drive_id@, drive_id@),
            },
    {
        database::get_drive(&self.store, drive_id)
    }

    /// Begins a synchronisation: clears the changelog of the drive, so
    /// that the changelog will show this synchronisation alone, and says
    /// what to ask the remote store for.
    pub fn plan(&mut self, drive_id: &str) -> (r: SyncStep)
        requires
            old(self).wf(),
        ensures
            final(self).wf(),
            final(self).fetcher_view() == old(self).fetcher_view(),
            final(self).store_view() == old(self).store_view().clear_changelog(drive_id@),
            match get(old(self).store_view().drives, drive_id@, drive_id@) {
                None => r is FetchListing,
                Some(drive) => r matches SyncStep::FetchChanges { page_token } && page_token@
                    == drive.page_token,
            },
    {
        // Always clear the changelog for a consistent state when a
        // synchronisation begins.
        database::clear_changelog(&mut self.store, drive_id);
        match database::get_drive(&self.store, drive_id) {
            None => SyncStep::FetchListing,
            Some(drive) => SyncStep::FetchChanges { page_token: drive.page_token },
        }
    }

    /// Loads a drive for the first time; see [`Store::add_drive`]. The
    /// items whose parent never comes are handed back.
    pub fn add_drive(&mut self, drive_id: &str, name: &str, page_token: &str, items: Vec<Item>) -> (r:
        Result<Vec<Item>, Error>)
        requires
            old(self).wf(),
        ensures
            final(self).wf(),
            final(self).fetcher_view() == old(self).fetcher_view(),
            r is Err <==> present(old(self).store_view().drives, drive_id@, drive_id@) || clashes(
                items_view(items@),
                drive_id@,
            ),
            r matches Err(e) ==> e == (Error::Database { source: database::Error::UnknownError })
                && final(self).store_view() == old(self).store_view(),
            r matches Ok(skipped) ==> loaded(
                old(self).store_view(),
                drive_id@,
                name@,
                page_token@,
                items_view(items@),
                final(self).store_view(),
            ) && items_view(skipped@) == items_view(items@).filter(
                left_out(final(self).store_view(), drive_id@),
            ),
    {
        match database::add_drive(&mut self.store, drive_id, name, page_token, items) {
            Ok(skipped) => Ok(skipped),
            Err(e) => Err(Error::from(e)),
        }
    }

    /// Ends a synchronisation with what the remote store delivered; see
    /// [`synced`]. Where the new cursor is the cursor of the replica, nothing
    /// is written: the replica is as it was, with an empty changelog.
    pub fn sync_drive(&mut self, drive_id: &str, remote: Remote) -> (r: Result<Synced, Error>)
        requires
            old(self).wf(),
        ensures
            final(self).wf(),
            final(self).fetcher_view() == old(self).fetcher_view(),
            synced(old(self).store_view(), drive_id@, remote, final(self).store_view(), r),
    {
        // Always clear the changelog for a consistent state when a
        // synchronisation is made.
        database::clear_changelog(&mut self.store, drive_id);
        let drive = database::get_drive(&self.store, drive_id);
        match (drive, remote) {
            (None, Remote::Listing { page_token, name, items }) => {
                match database::add_drive(
                    &mut self.store,
                    drive_id,
                    name.as_str(),
                    page_token.as_str(),
                    items,
                ) {
                    Ok(skipped) => Ok(Synced { kind: SyncKind::Full, skipped }),
                    Err(e) => Err(Error::from(e)),
                }
            },
            (Some(drive), Remote::Changes { changes, new_page_token }) => {
                if new_page_token == drive.page_token {
                    // Do not touch the replica where nothing has changed.
                    Ok(Synced { kind: SyncKind::Partial, skipped: Vec::new() })
                } else {
                    match database::merge_changes(&mut self.store, drive_id, changes, new_page_token.as_str()) {
                        Ok(()) => Ok(Synced { kind: SyncKind::Partial, skipped: Vec::new() }),
                        Err(e) => Err(Error::from(e)),
                    }
                }
            },
            _ => Err(Error::from(database::Error::UnknownError)),
        }
    }

    /// Removes a drive with all that the replica holds of it.
    pub fn remove_drive(&mut self, drive_id: &str)
        requires
            old(self).wf(),
        ensures
            final(self).wf(),
            final(self).fetcher_view() == old(self).fetcher_view(),
            final(self).store_view() == old(self).store_view().remove_drive(drive_id@),
    {
        database::remove_drive(&mut self.store, drive_id);
    }

    /// The changes that the last synchronisation of a drive made.
    pub fn changes<'a>(&'a self, drive_id: &'a str) -> (r: Changes<'a>)
        ensures
            r.source() == self,
            r.drive() == drive_id@,
    {
        Changes::new(self, drive_id)
    }

    /// The folder changelog of a drive.
    pub fn get_changed_folders(&self, drive_id: &str) -> (r: Vec<ChangedFolder>)
        ensures
            rows(r@) == self.store_view().folder_log.filter(in_drive(drive_id@)),
    {
        database::get_changed_folders(&self.store, drive_id)
    }

    /// The file changelog of a drive.
    pub fn get_changed_files(&self, drive_id: &str) -> (r: Vec<ChangedFile>)
        ensures
            rows(r@) == self.store_view().file_log.filter(in_drive(drive_id@)),
    {
        database::get_changed_files(&self.store, drive_id)
    }

    /// The changed paths of a drive: those of the folders, then those of
    /// the files.
    pub fn get_changed_paths(&self, drive_id: &str) -> (r: Vec<ChangedPath>)
        requires
            self.wf(),
        ensures
            rows(r@) == self.store_view().changed_paths(drive_id@),
    {
        database::get_changed_paths(&self.store, drive_id)
    }

    /// The folder changelog of a drive, each entry with its path as text.
    pub fn get_changed_folders_paths(&self, drive_id: &str) -> (r: Vec<(ChangedFolder, String)>)
        requires
            self.wf(),
        ensures
            r@.len() == self.store_view().folder_log.filter(in_drive(drive_id@)).len(),
            forall|i: int|
                0 <= i < r@.len() ==> {
                    let e = self.store_view().folder_log.filter(in_drive(drive_id@))[i];
                    (#[trigger] r@[i]).0@ == e && r@[i].1@ == self.store_view().folder_path(
                        e.folder,
                    ).inner.path
                },
    {
        let mut pairs = database::get_changed_folders_paths(&self.store, drive_id);
        let ghost log = self.store_view().folder_log.filter(in_drive(drive_id@));
        let ghost all = pairs@;
        let mut out: Vec<(ChangedFolder, String)> = Vec::new();
        let mut i: usize = 0;
        while i < pairs.len()
            invariant
                i <= pairs.len(),
                pairs@ == all,
                all.len() == log.len(),
                forall|k: int|
                    0 <= k < all.len() ==> (#[trigger] all[k]).0@ == log[k] && all[k].1@
                        == self.store_view().changed_folder_path()(log[k]),
                out@.len() == i,
                forall|k: int|
                    0 <= k < i ==> (#[trigger] out@[k]).0@ == log[k] && out@[k].1@
                        == self.store_view().folder_path(log[k].folder).inner.path,
            decreases pairs.len() - i,
        {
            let folder = match &pairs[i].0 {
                ChangedFolder::Created(f) => ChangedFolder::Created(f.clone()),
                ChangedFolder::Deleted(f) => ChangedFolder::Deleted(f.clone()),
            };
            let path = match &pairs[i].1 {
                ChangedPath::Created(Path::Folder(inner)) => inner.path.clone(),
                ChangedPath::Created(Path::File(inner)) => inner.path.clone(),
                ChangedPath::Deleted(Path::Folder(inner)) => inner.path.clone(),
                ChangedPath::Deleted(Path::File(inner)) => inner.path.clone(),
            };
            proof {
                assert(all[i as int].1@ == self.store_view().changed_folder_path()(log[i as int]));
            }
            out.push((folder, path));
            i += 1;
        }
        out
    }

    /// The file changelog of a drive, each entry with its path as text.
    pub fn get_changed_files_paths(&self, drive_id: &str) -> (r: Vec<(ChangedFile, String)>)
        requires
            self.wf(),
        ensures
            r@.len() == self.store_view().file_log.filter(in_drive(drive_id@)).len(),
            forall|i: int|
                0 <= i < r@.len() ==> {
                    let e = self.store_view().file_log.filter(in_drive(drive_id@))[i];
                    (#[trigger] r@[i]).0@ == e && r@[i].1@ == self.store_view().file_path(
                        e.file,
                    ).inner.path
                },
    {
        let mut pairs = database::get_changed_files_paths(&self.store, drive_id);
        let ghost log = self.store_view().file_log.filter(in_drive(drive_id@));
        let ghost all = pairs@;
        let mut out: Vec<(ChangedFile, String)> = Vec::new();
        let mut i: usize = 0;
        while i < pairs.len()
            invariant
                i <= pairs.len(),
                pairs@ == all,
                all.len() == log.len(),
                forall|k: int|
                    0 <= k < all.len() ==> (#[trigger] all[k]).0@ == log[k] && all[k].1@
                        == self.store_view().changed_file_path()(log[k]),
                out@.len() == i,
                forall|k: int|
                    0 <= k < i ==> (#[trigger] out@[k]).0@ == log[k] && out@[k].1@
                        == self.store_view().file_path(log[k].file).inner.path,
            decreases pairs.len() - i,
        {
            let file = match &pairs[i].0 {
                ChangedFile::Created(f) => ChangedFile::Created(f.clone()),
                ChangedFile::Deleted(f) => ChangedFile::Deleted(f.clone()),
            };
            let path = match &pairs[i].1 {
                ChangedPath::Created(Path::Folder(inner)) => inner.path.clone(),
                ChangedPath::Created(Path::File(inner)) => inner.path.clone(),
                ChangedPath::Deleted(Path::Folder(inner)) => inner.path.clone(),
                ChangedPath::Deleted(Path::File(inner)) => inner.path.clone(),
            };
            proof {
                assert(all[i as int].1@ == self.store_view().changed_file_path()(log[i as int]));
            }
            out.push((file, path));
            i += 1;
        }
        out
    }
}

/// A synchroniser that is being put together.
pub struct BernardBuilder {
    pub database_path: String,
    pub fetch: FetchBuilder,
}

impl BernardBuilder {
    /// Starts with the place of the storage and an account.
    pub fn new(database_path: &str, account: Account) -> (r: BernardBuilder)
        ensures
            r.database_path@ == database_path@,
            r.fetch.account == account,
            r.fetch.proxy is None,
    {
        BernardBuilder { database_path: database_path.to_owned(), fetch: Fetcher::builder(account) }
    }

    /// The synchroniser as it was put together, over the replica that was
    /// read from the storage.
    pub fn build(self, store: Store) -> (r: Bernard)
        requires
            store.wf(),
        ensures
            r.wf(),
            r.store_view() == store@,
            r.fetcher_view().account_view() == self.fetch.account,
            r.fetcher_view().proxy_view() == crate::model::folder::opt_view(self.fetch.proxy),
            r.fetcher_view().cache() == (RefreshTokenView {
                scope: crate::fetch::fetch_scope(),
                token: None,
            }),
    {
        Bernard { store, fetch: self.fetch.build() }
    }

    /// Asks the remote store through a proxy, for debugging.
    pub fn proxy(self, url: &str) -> (r: BernardBuilder)
        ensures
            r.database_path == self.database_path,
            r.fetch.account == self.fetch.account,
            crate::model::folder::opt_view(r.fetch.proxy) == Some(url@),
    {
        BernardBuilder { database_path: self.database_path, fetch: self.fetch.proxy(url) }
    }
}

/// A partial synchronisation without changes is a no-op. Where the replica
/// holds the drive and the remote cursor is the cursor of the replica, the
/// synchronisation ends as partial, the drives, the folders and the files
/// are as they were, and the changelog of the drive is empty.
pub proof fn lemma_unchanged_cursor_is_noop(
    before: StoreView,
    d: Seq<char>,
    remote: Remote,
    after: StoreView,
    r: Result<Synced, Error>,
)
    requires
        synced(before, d, remote, after, r),
        get(before.drives, d, d) is Some,
        remote matches Remote::Changes { new_page_token, .. } && new_page_token@ == get(
            before.drives,
            d,
            d,
        ).unwrap().page_token,
    ensures
        ended(r, SyncKind::Partial),
        after.drives == before.drives,
        after.folders == before.folders,
        after.files == before.files,
        after.folder_log.filter(in_drive(d)) == Seq::<crate::model::ChangedFolderView>::empty(),
        after.file_log.filter(in_drive(d)) == Seq::<crate::model::ChangedFileView>::empty(),
        after.changed_paths(d) == Seq::<crate::model::ChangedPathView>::empty(),
{
    crate::database::laws::lemma_cleared_is_empty(before, d);
}

/// A full synchronisation is no change. After a drive was loaded for the
/// first time, its changelog is empty and it has no changed path.
pub proof fn lemma_full_sync_logs_nothing(
    before: StoreView,
    d: Seq<char>,
    remote: Remote,
    after: StoreView,
    r: Result<Synced, Error>,
)
    requires
        synced(before, d, remote, after, r),
        r matches Ok(out) && out.kind == SyncKind::Full,
    ensures
        after.folder_log.filter(in_drive(d)) == Seq::<crate::model::ChangedFolderView>::empty(),
        after.file_log.filter(in_drive(d)) == Seq::<crate::model::ChangedFileView>::empty(),
        after.changed_paths(d) == Seq::<crate::model::ChangedPathView>::empty(),
{
    let start = before.clear_changelog(d);
    crate::database::laws::lemma_cleared_is_empty(before, d);
    crate::database::laws::lemma_none_left(start.folder_log, d);
    crate::database::laws::lemma_none_left(start.file_log, d);
    assert(after.changed_paths(d) =~= Seq::<crate::model::ChangedPathView>::empty());
}

} // verus!
