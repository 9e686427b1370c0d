//! The replica as a mathematical value, the effect of every operation of
//! the merge engine on it, and the proof that each keeps it well formed.

use vstd::prelude::*;
use crate::fetch::{ChangeView, ItemView};
use crate::model::{
    ChangedFileView,
    ChangedFolderView,
    ChangedPathView,
    DriveView,
    FileView,
    FolderView,
    InnerPathView,
    PathView,
};
use crate::text::joined;
use crate::database::tables::{
    at_key,
    get,
    in_drive,
    lemma_put,
    present,
    put,
    unique,
    without,
    Row,
};
use crate::database::tree::{names_to, can_attach, subtree, tree_ok, under};

verus! {

/// The replica: its tables and the changelog of the last merge.
pub struct StoreView {
    pub drives: Seq<DriveView>,
    pub folders: Seq<FolderView>,
    pub files: Seq<FileView>,
    pub folder_log: Seq<ChangedFolderView>,
    pub file_log: Seq<ChangedFileView>,
}

/// The changelog entry of a folder that now exists.
pub open spec fn created_folder() -> spec_fn(FolderView) -> ChangedFolderView {
    |f: FolderView| ChangedFolderView { deleted: false, folder: f }
}

/// The changelog entry of a folder that was removed.
pub open spec fn deleted_folder() -> spec_fn(FolderView) -> ChangedFolderView {
    |f: FolderView| ChangedFolderView { deleted: true, folder: f }
}

/// The changelog entry of a file that now exists.
pub open spec fn created_file() -> spec_fn(FileView) -> ChangedFileView {
    |y: FileView| ChangedFileView { deleted: false, file: y }
}

/// The changelog entry of a file that was removed.
pub open spec fn deleted_file() -> spec_fn(FileView) -> ChangedFileView {
    |y: FileView| ChangedFileView { deleted: true, file: y }
}

/// A changelog entry agrees with the table: an entry of an existing folder
/// shows the folder as the table holds it, and the table holds no folder
/// with the key of a removed one.
pub open spec fn folder_entry_ok(fs: Seq<FolderView>, e: ChangedFolderView) -> bool {
    if e.deleted {
        !present(fs, e.folder.drive_id, e.folder.id)
    } else {
        get(fs, e.folder.drive_id, e.folder.id) == Some(e.folder)
    }
}

/// A changelog entry agrees with the table, as for folders.
pub open spec fn file_entry_ok(ys: Seq<FileView>, e: ChangedFileView) -> bool {
    if e.deleted {
        !present(ys, e.file.drive_id, e.file.id)
    } else {
        get(ys, e.file.drive_id, e.file.id) == Some(e.file)
    }
}

/// The changelog after each of `rows`, in order, was entered in it.
pub open spec fn log_all<R, E: Row>(log: Seq<E>, rows: Seq<R>, entry: spec_fn(R) -> E) -> Seq<E>
    decreases rows.len(),
{
    if rows.len() == 0 {
        log
    } else {
        put(log_all(log, rows.drop_last(), entry), entry(rows.last()))
    }
}

/// The files of drive `d` that go when the item `id` is removed: the file
/// with that id, and every file in a folder at or below that id.
pub open spec fn files_below(fs: Seq<FolderView>, d: Seq<char>, id: Seq<char>) -> spec_fn(
    FileView,
) -> bool {
    |y: FileView|
        y.drive_id == d && (y.id == id || (match get(fs, d, y.parent) {
            Some(g) => under(fs, g, id),
            None => false,
        }))
}

impl StoreView {
    /// The empty replica.
    pub open spec fn empty() -> StoreView {
        StoreView {
            drives: Seq::empty(),
            folders: Seq::empty(),
            files: Seq::empty(),
            folder_log: Seq::empty(),
            file_log: Seq::empty(),
        }
    }

    /// The invariant of the replica. Keys are unique in every table; every
    /// folder belongs to a drive of the replica and reaches the root of its
    /// drive by following parents; every file lies in a folder of its drive;
    /// every changelog entry agrees with the tables; and the place of every
    /// entity that the changelog shows can be traced to the top of its
    /// drive, through removed folders where need be.
    pub open spec fn wf(self) -> bool {
        &&& unique(self.drives)
        &&& unique(self.folders)
        &&& unique(self.files)
        &&& unique(self.folder_log)
        &&& unique(self.file_log)
        &&& forall|k: int|
            0 <= k < self.folders.len() ==> present(
                self.drives,
                (#[trigger] self.folders[k]).drive_id,
                self.folders[k].drive_id,
            )
        &&& tree_ok(self.folders)
        &&& forall|k: int|
            0 <= k < self.files.len() ==> present(
                self.folders,
                (#[trigger] self.files[k]).drive_id,
                self.files[k].parent,
            )
        &&& forall|k: int|
            0 <= k < self.folder_log.len() ==> folder_entry_ok(
                self.folders,
                #[trigger] self.folder_log[k],
            )
        &&& forall|k: int|
            0 <= k < self.file_log.len() ==> file_entry_ok(self.files, #[trigger] self.file_log[k])
        &&& forall|k: int|
            0 <= k < self.folder_log.len() ==> self.folder_entry_traced(
                #[trigger] self.folder_log[k],
            )
        &&& forall|k: int|
            0 <= k < self.file_log.len() ==> self.file_entry_traced(#[trigger] self.file_log[k])
    }

    /// An entry of the folder changelog can be traced to the top: a folder
    /// without a parent is the root of its drive, and the parent of any
    /// other can be traced.
    pub open spec fn folder_entry_traced(self, e: ChangedFolderView) -> bool {
        match e.folder.parent {
            Some(p) => exists|hops: nat| self.resolves(e.folder.drive_id, p, hops),
            None => e.folder.id == e.folder.drive_id,
        }
    }

    /// An entry of the file changelog can be traced to the top: the parent
    /// of the file can be.
    pub open spec fn file_entry_traced(self, e: ChangedFileView) -> bool {
        exists|hops: nat| self.resolves(e.file.drive_id, e.file.parent, hops)
    }

    /// The replica with the cursor of drive `d` set; unchanged where it
    /// holds no such drive.
    pub open spec fn set_token(self, d: Seq<char>, token: Seq<char>) -> StoreView {
        if present(self.drives, d, d) {
            StoreView { drives: put(self.drives, DriveView { id: d, page_token: token }), ..self }
        } else {
            self
        }
    }

    /// Whether the folder may be upserted: its drive is in the replica, and
    /// the folder is the root of its drive or names a parent in its drive
    /// that does not lie at or below the folder itself.
    pub open spec fn can_put_folder(self, f: FolderView) -> bool {
        present(self.drives, f.drive_id, f.drive_id) && can_attach(self.folders, f)
    }

    /// The replica after the upsert of a folder, which the changelog then
    /// shows as existing.
    pub open spec fn put_folder(self, f: FolderView) -> StoreView {
        StoreView {
            folders: put(self.folders, f),
            folder_log: put(self.folder_log, created_folder()(f)),
            ..self
        }
    }

    /// Whether the file may be upserted: its parent is a folder of its drive.
    pub open spec fn can_put_file(self, y: FileView) -> bool {
        present(self.folders, y.drive_id, y.parent)
    }

    /// The replica after the upsert of a file, which the changelog then
    /// shows as existing.
    pub open spec fn put_file(self, y: FileView) -> StoreView {
        StoreView {
            files: put(self.files, y),
            file_log: put(self.file_log, created_file()(y)),
            ..self
        }
    }

    /// The replica after the root folder of drive `d` got a new name;
    /// unchanged where the drive has no root folder.
    pub open spec fn rename_root(self, d: Seq<char>, name: Seq<char>) -> StoreView {
        match get(self.folders, d, d) {
            Some(root) => self.put_folder(FolderView { name, ..root }),
            None => self,
        }
    }

    /// The replica after the item `id` of drive `d` was removed: the folder
    /// with that id goes with everything below it, and so does the file
    /// with that id. The changelog shows each row that went as removed.
    pub open spec fn remove_item(self, d: Seq<char>, id: Seq<char>) -> StoreView {
        let gone = subtree(self.folders, d, id);
        let gone_files = files_below(self.folders, d, id);
        StoreView {
            drives: self.drives,
            folders: without(self.folders, gone),
            files: without(self.files, gone_files),
            folder_log: log_all(self.folder_log, self.folders.filter(gone), deleted_folder()),
            file_log: log_all(self.file_log, self.files.filter(gone_files), deleted_file()),
        }
    }

    /// The change as the merge of drive `d` takes it: an item that now
    /// belongs to another drive counts as removed from this one.
    pub open spec fn seen_from(d: Seq<char>, c: ChangeView) -> ChangeView {
        match c {
            ChangeView::ItemChanged(item) => if item.drive_id() == d {
                c
            } else {
                ChangeView::ItemRemoved(item.id())
            },
            _ => c,
        }
    }

    /// The replica after one change of drive `d`, or `None` where the change
    /// would break the integrity of the replica.
    ///
    /// - A new name of drive `d` is given to its root folder, which the
    ///   changelog then shows; a new name of another drive changes nothing.
    /// - The removal of the drive changes nothing: the rows stay until the
    ///   drive is removed from the replica.
    /// - A folder or a file of drive `d` is upserted, where it may be.
    /// - An item of another drive, and the removal of an item, remove the
    ///   item: see [`StoreView::remove_item`].
    pub open spec fn apply(self, d: Seq<char>, c: ChangeView) -> Option<StoreView> {
        match Self::seen_from(d, c) {
            ChangeView::DriveChanged(drive) => Some(
                if drive.id == d {
                    self.rename_root(d, drive.name)
                } else {
                    self
                },
            ),
            ChangeView::DriveRemoved(_) => Some(self),
            ChangeView::ItemChanged(ItemView::Folder(f)) => if self.can_put_folder(f) {
                Some(self.put_folder(f))
            } else {
                None
            },
            ChangeView::ItemChanged(ItemView::File(y)) => if self.can_put_file(y) {
                Some(self.put_file(y))
            } else {
                None
            },
            ChangeView::ItemRemoved(id) => Some(self.remove_item(d, id)),
        }
    }

    /// The replica after a list of changes of drive `d`, applied in order,
    /// or `None` where one of them would break the integrity of the replica.
    pub open spec fn apply_all(self, d: Seq<char>, cs: Seq<ChangeView>) -> Option<StoreView>
        decreases cs.len(),
    {
        if cs.len() == 0 {
            Some(self)
        } else {
            match self.apply(d, cs.first()) {
                Some(next) => next.apply_all(d, cs.drop_first()),
                None => None,
            }
        }
    }

    /// The replica after a merge: the cursor is set first, then the changes
    /// are applied in order.
    pub open spec fn merge(self, d: Seq<char>, cs: Seq<ChangeView>, token: Seq<char>) -> Option<
        StoreView,
    > {
        self.set_token(d, token).apply_all(d, cs)
    }

    /// The replica with the changelog of drive `d` cleared.
    pub open spec fn clear_changelog(self, d: Seq<char>) -> StoreView {
        StoreView {
            folder_log: without(self.folder_log, in_drive(d)),
            file_log: without(self.file_log, in_drive(d)),
            ..self
        }
    }

    /// The replica without drive `d`: without its row, its folders, its
    /// files and its changelog.
    pub open spec fn remove_drive(self, d: Seq<char>) -> StoreView {
        StoreView {
            drives: without(self.drives, in_drive(d)),
            folders: without(self.folders, in_drive(d)),
            files: without(self.files, in_drive(d)),
            folder_log: without(self.folder_log, in_drive(d)),
            file_log: without(self.file_log, in_drive(d)),
        }
    }

    /// The replica with one more folder, which the changelog does not show.
    pub open spec fn attach_folder(self, f: FolderView) -> StoreView {
        StoreView { folders: put(self.folders, f), ..self }
    }

    /// The replica with one more file, which the changelog does not show.
    pub open spec fn attach_file(self, y: FileView) -> StoreView {
        StoreView { files: put(self.files, y), ..self }
    }

    /// Whether the folder `pid` of drive `d` can be traced to the top:
    /// it exists; or it was removed, the changelog shows it, and it was the
    /// root or its last known parent can be traced through at most `hops`
    /// more removed folders.
    pub open spec fn resolves(self, d: Seq<char>, pid: Seq<char>, hops: nat) -> bool
        decreases hops,
    {
        match get(self.folders, d, pid) {
            Some(_) => true,
            None => match get(self.folder_log, d, pid) {
                Some(e) => match e.folder.parent {
                    Some(above) => hops > 0 && self.resolves(d, above, (hops - 1) as nat),
                    None => true,
                },
                None => false,
            },
        }
    }

    /// A number of removed folders through which the folder `pid` can be
    /// traced to the top.
    pub open spec fn hops_to(self, d: Seq<char>, pid: Seq<char>) -> nat {
        choose|hops: nat| self.resolves(d, pid, hops)
    }

    /// The names from the top down to the folder `pid` of drive `d`. A
    /// folder that exists gives the names from the root of the drive down
    /// to it. A folder that was removed gives those of its last known
    /// parent, found in the same way through at most `hops` removed folders,
    /// and then its own last name. An id that the replica has never seen
    /// gives no names.
    pub open spec fn lost_trail(self, d: Seq<char>, pid: Seq<char>, hops: nat) -> Seq<Seq<char>>
        decreases hops,
    {
        match get(self.folders, d, pid) {
            Some(g) => names_to(self.folders, g),
            None => match get(self.folder_log, d, pid) {
                Some(e) => match e.folder.parent {
                    Some(above) => if hops > 0 {
                        self.lost_trail(d, above, (hops - 1) as nat).push(e.folder.name)
                    } else {
                        seq![e.folder.name]
                    },
                    None => seq![e.folder.name],
                },
                None => Seq::empty(),
            },
        }
    }

    /// The names from the top down to an entity of drive `d` with this
    /// parent and this name. Removed folders on the way are looked up in
    /// the changelog.
    pub open spec fn trail_to(self, d: Seq<char>, parent: Option<Seq<char>>, name: Seq<char>) -> Seq<
        Seq<char>,
    > {
        match parent {
            Some(p) => self.lost_trail(d, p, self.hops_to(d, p)).push(name),
            None => seq![name],
        }
    }

    /// The name at the top of drive `d`: that of its root folder, as it
    /// exists or as it was last known.
    pub open spec fn top_name(self, d: Seq<char>) -> Seq<char> {
        match get(self.folders, d, d) {
            Some(root) => root.name,
            None => match get(self.folder_log, d, d) {
                Some(e) => e.folder.name,
                None => Seq::empty(),
            },
        }
    }

    /// The path of a folder, as it exists or as it was last known.
    pub open spec fn folder_path(self, f: FolderView) -> PathView {
        PathView {
            folder: true,
            inner: InnerPathView {
                id: f.id,
                drive_id: f.drive_id,
                path: joined(self.trail_to(f.drive_id, f.parent, f.name), seq!['/']),
                trashed: f.trashed,
            },
        }
    }

    /// The path of a file, as it exists or as it was last known.
    pub open spec fn file_path(self, y: FileView) -> PathView {
        PathView {
            folder: false,
            inner: InnerPathView {
                id: y.id,
                drive_id: y.drive_id,
                path: joined(self.trail_to(y.drive_id, Some(y.parent), y.name), seq!['/']),
                trashed: y.trashed,
            },
        }
    }

    /// The path of an entry of the folder changelog.
    pub open spec fn changed_folder_path(self) -> spec_fn(ChangedFolderView) -> ChangedPathView {
        |e: ChangedFolderView| ChangedPathView { deleted: e.deleted, path: self.folder_path(e.folder) }
    }

    /// The path of an entry of the file changelog.
    pub open spec fn changed_file_path(self) -> spec_fn(ChangedFileView) -> ChangedPathView {
        |e: ChangedFileView| ChangedPathView { deleted: e.deleted, path: self.file_path(e.file) }
    }

    /// The changed paths of drive `d`: those of the folder changelog, then
    /// those of the file changelog.
    pub open spec fn changed_paths(self, d: Seq<char>) -> Seq<ChangedPathView> {
        self.folder_log.filter(in_drive(d)).map_values(self.changed_folder_path())
            + self.file_log.filter(in_drive(d)).map_values(self.changed_file_path())
    }

    /// The root folder that a new drive gets.
    pub open spec fn root_of(d: Seq<char>, name: Seq<char>) -> FolderView {
        FolderView { id: d, drive_id: d, name, trashed: false, parent: None }
    }

    /// The replica with a new drive and its root folder. The changelog of
    /// the drive is empty afterwards: a first load is no change.
    pub open spec fn open_drive(self, d: Seq<char>, name: Seq<char>, token: Seq<char>) -> StoreView {
        StoreView {
            drives: self.drives.push(DriveView { id: d, page_token: token }),
            folders: self.folders.push(Self::root_of(d, name)),
            folder_log: without(self.folder_log, in_drive(d)),
            file_log: without(self.file_log, in_drive(d)),
            ..self
        }
    }
}

/// Two items of a listing that would be the same row: of one kind, with
/// one key.
pub open spec fn same_row(a: ItemView, b: ItemView) -> bool {
    (a is Folder <==> b is Folder) && a.drive_id() == b.drive_id() && a.id() == b.id()
}

/// Whether a listing cannot be stored as the content of drive `d`: two of
/// its items would be the same row, or one of its folders would take the
/// place of the root folder.
pub open spec fn clashes(items: Seq<ItemView>, d: Seq<char>) -> bool {
    ||| exists|i: int, j: int|
        0 <= i < j < items.len() && same_row(#[trigger] items[i], #[trigger] items[j])
    ||| exists|i: int|
        0 <= i < items.len() && (#[trigger] items[i]) is Folder && items[i].drive_id() == d
            && items[i].id() == d
}

/// Whether the replica holds the item as a row of drive `d`, as listed.
pub open spec fn holds_item(s: StoreView, d: Seq<char>, it: ItemView) -> bool {
    it.drive_id() == d && (match it {
        ItemView::Folder(f) => get(s.folders, d, f.id) == Some(f),
        ItemView::File(y) => get(s.files, d, y.id) == Some(y),
    })
}

/// Whether the item belongs to drive `d` and the replica holds the folder
/// that it names as its parent.
pub open spec fn attachable(s: StoreView, d: Seq<char>, it: ItemView) -> bool {
    it.drive_id() == d && (match it {
        ItemView::Folder(f) => f.parent is Some && present(s.folders, d, f.parent.unwrap()),
        ItemView::File(y) => present(s.folders, d, y.parent),
    })
}

/// The items that the replica does not hold.
pub open spec fn left_out(s: StoreView, d: Seq<char>) -> spec_fn(ItemView) -> bool {
    |it: ItemView| !holds_item(s, d, it)
}

/// What a first load of drive `d` makes of the replica `s`: the replica
/// `t`. The drive and its root folder are there; of the listing exactly
/// the items whose parent is there, so those that hang, by their chain of
/// parents, on the root; nothing else has come to the drive, nothing of
/// another drive has changed, and the changelog of the drive is empty.
pub open spec fn loaded(
    s: StoreView,
    d: Seq<char>,
    name: Seq<char>,
    token: Seq<char>,
    items: Seq<ItemView>,
    t: StoreView,
) -> bool {
    &&& t.wf()
    &&& t.drives == s.drives.push(DriveView { id: d, page_token: token })
    &&& t.folder_log == without(s.folder_log, in_drive(d))
    &&& t.file_log == without(s.file_log, in_drive(d))
    &&& get(t.folders, d, d) == Some(StoreView::root_of(d, name))
    &&& forall|i: int|
        0 <= i < items.len() ==> (holds_item(t, d, #[trigger] items[i]) <==> attachable(
            t,
            d,
            items[i],
        ))
    &&& forall|k: int|
        0 <= k < t.folders.len() ==> {
            let g = #[trigger] t.folders[k];
            if g.drive_id == d {
                g == StoreView::root_of(d, name) || items.contains(ItemView::Folder(g))
            } else {
                s.folders.contains(g)
            }
        }
    &&& forall|k: int|
        0 <= k < t.files.len() ==> {
            let y = #[trigger] t.files[k];
            if y.drive_id == d {
                items.contains(ItemView::File(y))
            } else {
                s.files.contains(y)
            }
        }
    &&& forall|k: int| 0 <= k < s.folders.len() ==> t.folders.contains(#[trigger] s.folders[k])
    &&& forall|k: int| 0 <= k < s.files.len() ==> t.files.contains(#[trigger] s.files[k])
}

/// Entering rows in a changelog keeps its keys unique. Each entry
/// afterwards is the entry of one of the rows, or an entry that the
/// changelog held before, under a key that none of the rows has.
pub proof fn lemma_log_all<R, E: Row>(log: Seq<E>, rows: Seq<R>, entry: spec_fn(R) -> E)
    requires
        unique(log),
    ensures
        unique(log_all(log, rows, entry)),
        forall|k: int|
            0 <= k < log_all(log, rows, entry).len() ==> {
                let e = #[trigger] log_all(log, rows, entry)[k];
                (exists|j: int| 0 <= j < rows.len() && e == entry(rows[j])) || (log.contains(e)
                    && forall|j: int|
                    0 <= j < rows.len() ==> !at_key(
                        e,
                        entry(#[trigger] rows[j]).drive(),
                        entry(rows[j]).ident(),
                    ))
            },
    decreases rows.len(),
{
    if rows.len() > 0 {
        let rows0 = rows.drop_last();
        let log0 = log_all(log, rows0, entry);
        let x = entry(rows.last());
        lemma_log_all(log, rows0, entry);
        lemma_put(log0, x);
        let out = log_all(log, rows, entry);
        assert forall|k: int| 0 <= k < out.len() implies {
            let e = #[trigger] out[k];
            (exists|j: int| 0 <= j < rows.len() && e == entry(rows[j])) || (log.contains(e)
                && forall|j: int|
                0 <= j < rows.len() ==> !at_key(
                    e,
                    entry(#[trigger] rows[j]).drive(),
                    entry(rows[j]).ident(),
                ))
        } by {
            let e = out[k];
            if e == x {
                assert(e == entry(rows[rows.len() - 1]));
            } else {
                assert(log0.contains(e));
                let i = choose|i: int| 0 <= i < log0.len() && log0[i] == e;
                let e0 = log0[i];
                if exists|j: int| 0 <= j < rows0.len() && e0 == entry(rows0[j]) {
                    let j = choose|j: int| 0 <= j < rows0.len() && e0 == entry(rows0[j]);
                    assert(e == entry(rows[j]));
                } else {
                    assert forall|j: int| 0 <= j < rows.len() implies !at_key(
                        e,
                        entry(#[trigger] rows[j]).drive(),
                        entry(rows[j]).ident(),
                    ) by {
                        if j < rows0.len() {
                            assert(rows0[j] == rows[j]);
                        }
                    }
                }
            }
        }
    } else {
        let out = log_all(log, rows, entry);
        assert forall|k: int| 0 <= k < out.len() implies log.contains(#[trigger] out[k]) by {}
    }
}

} // verus!
