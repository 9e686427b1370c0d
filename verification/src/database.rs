//! The replica and its merge engine.
//!
//! The replica holds the drives, their folders and files, and the changelog
//! of the last merge. Every operation either succeeds as a whole or leaves
//! the replica as it was.

pub mod laws;
pub mod load;
pub mod rows;
pub mod sound;
pub mod state;
pub mod tables;
pub mod trace;
pub mod tree;

use vstd::prelude::*;
use crate::fetch::{changes_view, items_view, Change, ChangeView, Item};
use crate::model::{
    ChangedFile,
    ChangedFolder,
    ChangedPath,
    Drive,
    DriveView,
    File,
    Folder,
    InnerPath,
    NewDrive,
    NewFolder,
    Path,
};
use crate::text::{join, joined, strs};
use crate::database::load::{
    lemma_mark,
    lemma_marks_decide,
    markable,
    marks_full,
    marks_sound,
    lemma_loading_end,
    lemma_loading_file,
    lemma_loading_folder,
    lemma_loading_start,
    lemma_todo_update,
    loading,
    todo,
};
use crate::database::rows::{
    copy_rows,
    find,
    rows,
    same_file,
    same_folder,
    same_rows,
    split_drive,
    upsert,
    Keyed,
};
use crate::database::sound::{
    lemma_apply_wf,
    lemma_clear_changelog_wf,
    lemma_put_file_wf,
    lemma_put_folder_wf,
    lemma_remove_drive_wf,
    lemma_remove_item_wf,
    lemma_rename_root_wf,
    lemma_set_token_wf,
};
use crate::database::state::{
    file_entry_ok,
    folder_entry_ok,
    attachable,
    clashes,
    deleted_file,
    deleted_folder,
    files_below,
    holds_item,
    left_out,
    lemma_log_all,
    loaded,
    log_all,
    same_row,
    StoreView,
};
use crate::database::trace::{
    entry_markable,
    entry_marks_full,
    entry_marks_sound,
    lemma_entry_mark,
    lemma_entry_marks_decide,
};
use crate::database::tables::{
    lemma_filter_rows,
    at_key,
    get,
    in_drive,
    lemma_get_some,
    Row,
    present,
    put,
    spared,
    unique,
};
use crate::database::tree::{
    climbs,
    height,
    lemma_step,
    lemma_under_step,
    names_to,
    parent_of,
    rooted,
    subtree,
    tree_ok,
    under,
};

verus! {

/// Why an operation on the replica failed.
#[derive(Debug, PartialEq, Eq, Structural)]
pub enum Error {
    /// The storage could not be opened.
    ConnectionError,
    /// The storage could not be brought to the current schema.
    MigrationError,
    /// A failure that says nothing about the data, such as a row that
    /// exists already.
    UnknownError,
    /// The operation would have broken the integrity of the replica: a row
    /// named a drive or a parent that the replica does not hold, or a folder
    /// would have come to lie below itself.
    DataIntegrityError,
}

/// The replica in memory.
pub struct Store {
    drives: Vec<Drive>,
    folders: Vec<Folder>,
    files: Vec<File>,
    folder_log: Vec<ChangedFolder>,
    file_log: Vec<ChangedFile>,
}

impl View for Store {
    type V = StoreView;

    closed spec fn view(&self) -> StoreView {
        StoreView {
            drives: rows(self.drives@),
            folders: rows(self.folders@),
            files: rows(self.files@),
            folder_log: rows(self.folder_log@),
            file_log: rows(self.file_log@),
        }
    }
}

/// Whether the folder at `start` is the folder with id `r` or lies below it.
fn is_under(folders: &Vec<Folder>, start: usize, r: &String) -> (b: bool)
    requires
        unique(rows(folders@)),
        tree_ok(rows(folders@)),
        start < folders.len(),
    ensures
        b == under(rows(folders@), folders[start as int]@, r@),
{
    let ghost fs = rows(folders@);
    let mut cur = start;
    let ghost mut n: nat = height(fs, fs[start as int]);
    proof {
        assert(rooted(fs, fs[start as int]));
    }
    loop
        invariant
            cur < folders.len(),
            start < folders.len(),
            fs == rows(folders@),
            unique(fs),
            climbs(fs, fs[cur as int], n),
            under(fs, fs[start as int], r@) <==> under(fs, fs[cur as int], r@),
        decreases n,
    {
        proof {
            assert(fs[cur as int] == folders[cur as int]@);
            assert(fs[start as int] == folders[start as int]@);
            lemma_under_step(fs, fs[cur as int], r@);
            lemma_step(fs, fs[cur as int], n);
        }
        if folders[cur].id == *r {
            return true;
        }
        match &folders[cur].parent {
            None => {
                return false;
            },
            Some(p) => {
                let next = find(folders, &folders[cur].drive_id, p);
                match next {
                    Some(k) => {
                        cur = k;
                        proof {
                            n = (n - 1) as nat;
                        }
                    },
                    None => {
                        return false;
                    },
                }
            },
        }
    }
}

/// The names from the root of the drive down to the folder at `start`.
fn names_of(folders: &Vec<Folder>, start: usize) -> (names: Vec<String>)
    requires
        unique(rows(folders@)),
        tree_ok(rows(folders@)),
        start < folders.len(),
    ensures
        strs(names@) == names_to(rows(folders@), folders[start as int]@),
{
    let ghost fs = rows(folders@);
    let mut cur = start;
    let mut names: Vec<String> = Vec::new();
    let ghost mut n: nat = height(fs, fs[start as int]);
    proof {
        assert(rooted(fs, fs[start as int]));
        assert(strs(names@) =~= Seq::empty());
    }
    loop
        invariant
            cur < folders.len(),
            start < folders.len(),
            fs == rows(folders@),
            unique(fs),
            climbs(fs, fs[cur as int], n),
            names_to(fs, fs[start as int]) == names_to(fs, fs[cur as int]) + strs(names@),
        decreases n,
    {
        proof {
            assert(fs[cur as int] == folders[cur as int]@);
            assert(fs[start as int] == folders[start as int]@);
            lemma_step(fs, fs[cur as int], n);
        }
        let ghost before = strs(names@);
        names.insert(0, folders[cur].name.clone());
        proof {
            assert(strs(names@) =~= seq![fs[cur as int].name] + before);
        }
        match &folders[cur].parent {
            None => {
                proof {
                    assert(names_to(fs, fs[cur as int]) + before =~= strs(names@));
                }
                return names;
            },
            Some(p) => {
                let next = find(folders, &folders[cur].drive_id, p);
                match next {
                    Some(k) => {
                        proof {
                            let g = fs[k as int];
                            assert(parent_of(fs, fs[cur as int]) == Some(g));
                            assert(names_to(fs, g).push(fs[cur as int].name) + before =~= names_to(
                                fs,
                                g,
                            ) + strs(names@));
                            n = (n - 1) as nat;
                        }
                        cur = k;
                    },
                    None => {
                        return names;
                    },
                }
            },
        }
    }
}

/// The change that an item makes to drive `drive_id`: the item as it now
/// is, if it belongs to the drive; its removal, if it has moved to another
/// drive.
pub fn item_to_change(drive_id: &str, item: Item) -> (r: Change)
    ensures
        r@ == StoreView::seen_from(drive_id@, ChangeView::ItemChanged(item@)),
        item@.drive_id() == drive_id@ ==> r == Change::ItemChanged(item),
        item@.drive_id() != drive_id@ ==> r@ == ChangeView::ItemRemoved(item@.id()),
{
    if crate::str_eq(item.drive_id(), drive_id) {
        Change::ItemChanged(item)
    } else {
        Change::ItemRemoved(item.into_id())
    }
}

/// Whether two items would be the same row.
fn is_same_row(a: &Item, b: &Item) -> (r: bool)
    ensures
        r == same_row(a@, b@),
{
    match (a, b) {
        (Item::Folder(x), Item::Folder(y)) => x.drive_id == y.drive_id && x.id == y.id,
        (Item::File(x), Item::File(y)) => x.drive_id == y.drive_id && x.id == y.id,
        _ => false,
    }
}

/// Whether a listing cannot be stored as the content of drive `d`.
fn listing_clashes(items: &Vec<Item>, d: &String) -> (r: bool)
    ensures
        r == clashes(items_view(items@), d@),
{
    let ghost its = items_view(items@);
    let mut j: usize = 0;
    while j < items.len()
        invariant
            j <= items.len(),
            its == items_view(items@),
            forall|a: int, b: int| 0 <= a < b < j ==> !same_row(#[trigger] its[a], #[trigger] its[b]),
            forall|a: int|
                0 <= a < j ==> !((#[trigger] its[a]) is Folder && its[a].drive_id() == d@
                    && its[a].id() == d@),
        decreases items.len() - j,
    {
        proof {
            assert(its[j as int] == items[j as int]@);
        }
        match &items[j] {
            Item::Folder(f) => {
                if f.drive_id == *d && f.id == *d {
                    return true;
                }
            },
            Item::File(_) => {},
        }
        let mut i: usize = 0;
        while i < j
            invariant
                i <= j,
                j < items.len(),
                its == items_view(items@),
                forall|a: int| 0 <= a < i ==> !same_row(#[trigger] its[a], its[j as int]),
            decreases j - i,
        {
            proof {
                assert(its[j as int] == items[j as int]@);
                assert(its[i as int] == items[i as int]@);
            }
            if is_same_row(&items[i], &items[j]) {
                return true;
            }
            i += 1;
        }
        j += 1;
    }
    false
}

/// Whether no two rows of the table share a key.
fn all_unique<T: Keyed>(v: &Vec<T>) -> (r: bool) where T::V: Row
    ensures
        r == unique(rows(v@)),
{
    let ghost t = rows(v@);
    let mut j: usize = 0;
    while j < v.len()
        invariant
            j <= v.len(),
            t == rows(v@),
            forall|a: int, b: int|
                0 <= a < j && 0 <= b < j && a != b ==> !at_key(
                    #[trigger] t[b],
                    (#[trigger] t[a]).drive(),
                    t[a].ident(),
                ),
        decreases v.len() - j,
    {
        let mut i: usize = 0;
        while i < j
            invariant
                i <= j,
                j < v.len(),
                t == rows(v@),
                forall|a: int| 0 <= a < i ==> !at_key(#[trigger] t[a], t[j as int].drive(), t[j as int].ident()),
            decreases j - i,
        {
            proof {
                assert(t[i as int] == v[i as int]@);
                assert(t[j as int] == v[j as int]@);
            }
            if *v[i].key_drive() == *v[j].key_drive() && *v[i].key_id() == *v[j].key_id() {
                proof {
                    assert(at_key(t[i as int], t[j as int].drive(), t[j as int].ident()));
                }
                return false;
            }
            i += 1;
        }
        proof {
            assert forall|a: int, b: int| 0 <= a < j + 1 && 0 <= b < j + 1 && a != b implies !at_key(
                #[trigger] t[b],
                (#[trigger] t[a]).drive(),
                t[a].ident(),
            ) by {
                if b == j {
                    assert(!at_key(t[a], t[j as int].drive(), t[j as int].ident()));
                } else if a == j {
                    assert(!at_key(t[b], t[j as int].drive(), t[j as int].ident()));
                }
            }
        }
        j += 1;
    }
    true
}

/// Whether every folder of the table reaches the root of its drive.
fn is_tree(folders: &Vec<Folder>) -> (r: bool)
    requires
        unique(rows(folders@)),
    ensures
        r == tree_ok(rows(folders@)),
{
    let ghost fs = rows(folders@);
    let n = folders.len();
    let mut marks: Vec<bool> = Vec::new();
    while marks.len() < n
        invariant
            marks.len() <= n,
            forall|i: int| 0 <= i < marks.len() ==> !marks[i],
        decreases n - marks.len(),
    {
        marks.push(false);
    }
    let mut progress = true;
    while progress
        invariant
            n == folders.len(),
            fs == rows(folders@),
            unique(fs),
            marks_sound(fs, marks@),
            !progress ==> marks_full(fs, marks@),
        decreases todo(marks@), (if progress { 1nat } else { 0nat }),
    {
        progress = false;
        let ghost before = todo(marks@);
        let mut k: usize = 0;
        while k < n
            invariant
                k <= n,
                n == folders.len(),
                fs == rows(folders@),
                unique(fs),
                marks_sound(fs, marks@),
                todo(marks@) <= before,
                progress ==> todo(marks@) < before,
                !progress ==> forall|i: int|
                    0 <= i < k && !#[trigger] marks[i] ==> !markable(fs, marks@, i),
            decreases n - k,
        {
            proof {
                assert(fs[k as int] == folders[k as int]@);
            }
            if !marks[k] {
                let fits = match &folders[k].parent {
                    None => folders[k].id == folders[k].drive_id,
                    Some(p) => match find(folders, &folders[k].drive_id, p) {
                        Some(j) => marks[j],
                        None => false,
                    },
                };
                assert(fits == markable(fs, marks@, k as int));
                if fits {
                    proof {
                        lemma_mark(fs, marks@, k as int);
                        lemma_todo_update(marks@, k as int);
                    }
                    marks.set(k, true);
                    progress = true;
                }
            }
            k += 1;
        }
    }
    proof {
        lemma_marks_decide(fs, marks@);
        crate::database::load::lemma_todo_zero(marks@);
    }
    let mut k: usize = 0;
    while k < n
        invariant
            k <= n,
            n == marks.len(),
            tree_ok(rows(folders@)) <==> forall|i: int| 0 <= i < marks.len() ==> marks[i],
            forall|i: int| 0 <= i < k ==> marks[i],
        decreases n - k,
    {
        if !marks[k] {
            return false;
        }
        k += 1;
    }
    true
}

impl Store {
    /// The invariant of the replica; see [`StoreView::wf`].
    pub open spec fn wf(&self) -> bool {
        self@.wf()
    }

    /// An empty replica.
    pub fn new() -> (r: Store)
        ensures
            r@ == StoreView::empty(),
            r.wf(),
    {
        let r = Store {
            drives: Vec::new(),
            folders: Vec::new(),
            files: Vec::new(),
            folder_log: Vec::new(),
            file_log: Vec::new(),
        };
        proof {
            assert(r@.drives =~= Seq::empty());
            assert(r@.folders =~= Seq::empty());
            assert(r@.files =~= Seq::empty());
            assert(r@.folder_log =~= Seq::empty());
            assert(r@.file_log =~= Seq::empty());
        }
        r
    }

    /// Whether the two replicas hold the same rows and the same changelog,
    /// each table in the same order.
    pub fn same_as(&self, other: &Store) -> (r: bool)
        ensures
            r == (self@ == other@),
    {
        same_rows(&self.drives, &other.drives) && same_rows(&self.folders, &other.folders)
            && same_rows(&self.files, &other.files) && same_rows(
            &self.folder_log,
            &other.folder_log,
        ) && same_rows(&self.file_log, &other.file_log)
    }

    /// A copy of the replica.
    pub fn copy(&self) -> (r: Store)
        ensures
            r@ == self@,
    {
        Store {
            drives: copy_rows(&self.drives),
            folders: copy_rows(&self.folders),
            files: copy_rows(&self.files),
            folder_log: copy_rows(&self.folder_log),
            file_log: copy_rows(&self.file_log),
        }
    }

    /// Whether the folder may be upserted.
    fn can_put_folder(&self, f: &Folder) -> (b: bool)
        requires
            self.wf(),
        ensures
            b == self@.can_put_folder(f@),
    {
        if find(&self.drives, &f.drive_id, &f.drive_id).is_none() {
            return false;
        }
        match &f.parent {
            None => f.id == f.drive_id,
            Some(p) => match find(&self.folders, &f.drive_id, p) {
                Some(k) => !is_under(&self.folders, k, &f.id),
                None => false,
            },
        }
    }

    /// Applies one change of drive `d`. Returns whether the change could be
    /// applied; the replica is unchanged where it could not.
    fn apply_change(&mut self, d: &String, change: &Change) -> (ok: bool)
        requires
            old(self).wf(),
        ensures
            final(self).wf(),
            match old(self)@.apply(d@, change@) {
                Some(t) => ok && final(self)@ == t,
                None => !ok && final(self)@ == old(self)@,
            },
    {
        proof {
            lemma_apply_wf(self@, d@, change@);
        }
        // If an item has changed to another drive, consider it removed.
        let change = match change {
            Change::ItemChanged(item) => item_to_change(d.as_str(), item.clone()),
            _ => change.clone(),
        };
        match change {
            Change::DriveChanged(drive) => {
                if drive.id == *d {
                    update_drive_name(self, d, &drive.name);
                }
                true
            },
            Change::DriveRemoved(_) => true,
            Change::ItemChanged(Item::Folder(f)) => {
                if self.can_put_folder(&f) {
                    upsert_folder(self, f);
                    true
                } else {
                    false
                }
            },
            Change::ItemChanged(Item::File(y)) => {
                if find(&self.folders, &y.drive_id, &y.parent).is_some() {
                    upsert_file(self, y);
                    true
                } else {
                    false
                }
            },
            Change::ItemRemoved(id) => {
                delete_file_or_folder(self, d, &id);
                true
            },
        }
    }

    /// The folders of a drive.
    pub fn folders(&self, drive_id: &str) -> (r: Vec<Folder>)
        ensures
            rows(r@) == self@.folders.filter(in_drive(drive_id@)),
    {
        let d = drive_id.to_owned();
        let (mine, _) = split_drive(&self.folders, &d);
        mine
    }

    /// The files of a drive.
    pub fn files(&self, drive_id: &str) -> (r: Vec<File>)
        ensures
            rows(r@) == self@.files.filter(in_drive(drive_id@)),
    {
        let d = drive_id.to_owned();
        let (mine, _) = split_drive(&self.files, &d);
        mine
    }

    /// The names from the top down to the folder `pid` of drive `d`, through
    /// removed folders where need be.
    fn trail_names(&self, d: &String, pid: &String) -> (names: Vec<String>)
        requires
            self.wf(),
            exists|n: nat| self@.resolves(d@, pid@, n),
        ensures
            strs(names@) == self@.lost_trail(d@, pid@, self@.hops_to(d@, pid@)),
    {
        let ghost s = self@;
        let ghost total = s.hops_to(d@, pid@);
        let ghost mut n: nat = total;
        let mut cur: String = pid.clone();
        let mut tail: Vec<String> = Vec::new();
        proof {
            assert(strs(tail@) =~= Seq::empty());
        }
        loop
            invariant
                self.wf(),
                s == self@,
                total == s.hops_to(d@, pid@),
                s.resolves(d@, cur@, n),
                s.lost_trail(d@, pid@, total) == s.lost_trail(d@, cur@, n) + strs(tail@),
            decreases n,
        {
            match find(&self.folders, d, &cur) {
                Some(k) => {
                    let mut names = names_of(&self.folders, k);
                    let ghost head = strs(names@);
                    let mut i: usize = 0;
                    while i < tail.len()
                        invariant
                            i <= tail.len(),
                            strs(names@) == head + strs(tail@).take(i as int),
                        decreases tail.len() - i,
                    {
                        let ghost prev = strs(names@);
                        names.push(tail[i].clone());
                        proof {
                            assert(strs(names@) =~= prev.push(tail[i as int]@));
                            assert(strs(tail@).take(i + 1) =~= strs(tail@).take(i as int).push(
                                tail[i as int]@,
                            ));
                            assert(strs(names@) =~= head + strs(tail@).take(i + 1));
                        }
                        i += 1;
                    }
                    proof {
                        assert(strs(tail@).take(tail.len() as int) =~= strs(tail@));
                    }
                    return names;
                },
                None => {},
            }
            match find(&self.folder_log, d, &cur) {
                Some(j) => {
                    let folder = match &self.folder_log[j] {
                        ChangedFolder::Created(f) => f,
                        ChangedFolder::Deleted(f) => f,
                    };
                    let ghost before = strs(tail@);
                    tail.insert(0, folder.name.clone());
                    proof {
                        assert(strs(tail@) =~= seq![folder@.name] + before);
                        assert(get(s.folder_log, d@, cur@).unwrap().folder == folder@);
                    }
                    match &folder.parent {
                        Some(above) => {
                            proof {
                                let up = s.lost_trail(d@, above@, (n - 1) as nat);
                                assert(up.push(folder@.name) + before =~= up + strs(tail@));
                                n = (n - 1) as nat;
                            }
                            cur = above.clone();
                        },
                        None => {
                            proof {
                                assert(seq![folder@.name] + before =~= strs(tail@));
                            }
                            return tail;
                        },
                    }
                },
                None => {
                    proof {
                        assert(Seq::<Seq<char>>::empty() + strs(tail@) =~= strs(tail@));
                    }
                    return tail;
                },
            }
        }
    }

    /// The path of a folder, as it exists or as it was last known.
    fn path_of_folder(&self, f: &Folder) -> (r: Path)
        requires
            self.wf(),
            f@.parent is Some ==> exists|n: nat|
                self@.resolves(f@.drive_id, f@.parent.unwrap(), n),
        ensures
            r@ == self@.folder_path(f@),
    {
        let mut names = match &f.parent {
            Some(p) => self.trail_names(&f.drive_id, p),
            None => Vec::new(),
        };
        let ghost before = strs(names@);
        names.push(f.name.clone());
        proof {
            assert(strs(names@) =~= before.push(f@.name));
            assert(f.parent is None ==> before =~= Seq::empty());
            assert(strs(names@) =~= self@.trail_to(f@.drive_id, f@.parent, f@.name));
            reveal_strlit("/");
            assert("/"@ =~= seq!['/']);
        }
        Path::Folder(
            InnerPath {
                id: f.id.clone(),
                drive_id: f.drive_id.clone(),
                path: join(&names, "/"),
                trashed: f.trashed,
            },
        )
    }

    /// The path of a file, as it exists or as it was last known.
    fn path_of_file(&self, y: &File) -> (r: Path)
        requires
            self.wf(),
            exists|n: nat| self@.resolves(y@.drive_id, y@.parent, n),
        ensures
            r@ == self@.file_path(y@),
    {
        let mut names = self.trail_names(&y.drive_id, &y.parent);
        let ghost before = strs(names@);
        names.push(y.name.clone());
        proof {
            assert(strs(names@) =~= before.push(y@.name));
            reveal_strlit("/");
            assert("/"@ =~= seq!['/']);
        }
        Path::File(
            InnerPath {
                id: y.id.clone(),
                drive_id: y.drive_id.clone(),
                path: join(&names, "/"),
                trashed: y.trashed,
            },
        )
    }

    /// The path of the folder with this id, if the drive has it: the names
    /// from the root folder of the drive down to the folder, joined by `/`.
    pub fn folder_path(&self, drive_id: &str, id: &str) -> (r: Option<Path>)
        requires
            self.wf(),
        ensures
            match get(self@.folders, drive_id@, id@) {
                Some(f) => r matches Some(p) && p@ == self@.folder_path(f),
                None => r is None,
            },
    {
        let d = drive_id.to_owned();
        let i = id.to_owned();
        match find(&self.folders, &d, &i) {
            Some(k) => {
                proof {
                    let fs = self@.folders;
                    assert(fs[k as int] == self.folders[k as int]@);
                    assert(rooted(fs, fs[k as int]));
                    lemma_step(fs, fs[k as int], height(fs, fs[k as int]));
                    if fs[k as int].parent is Some {
                        assert(self@.resolves(
                            fs[k as int].drive_id,
                            fs[k as int].parent.unwrap(),
                            0,
                        ));
                    }
                }
                Some(self.path_of_folder(&self.folders[k]))
            },
            None => None,
        }
    }

    /// The path of the file with this id, if the drive has it: the names
    /// from the root folder of the drive down to the file, joined by `/`.
    pub fn file_path(&self, drive_id: &str, id: &str) -> (r: Option<Path>)
        requires
            self.wf(),
        ensures
            match get(self@.files, drive_id@, id@) {
                Some(y) => r matches Some(p) && p@ == self@.file_path(y),
                None => r is None,
            },
    {
        let d = drive_id.to_owned();
        let i = id.to_owned();
        match find(&self.files, &d, &i) {
            Some(k) => {
                proof {
                    let ys = self@.files;
                    assert(ys[k as int] == self.files[k as int]@);
                    assert(present(self@.folders, ys[k as int].drive_id, ys[k as int].parent));
                    assert(self@.resolves(ys[k as int].drive_id, ys[k as int].parent, 0));
                }
                Some(self.path_of_file(&self.files[k]))
            },
            None => None,
        }
    }

    /// The replica made of the given tables, as they were read from the
    /// storage, if they are a well-formed replica: see [`StoreView::wf`].
    /// Tables that are not are refused with [`Error::DataIntegrityError`].
    pub fn restore(
        drives: Vec<Drive>,
        folders: Vec<Folder>,
        files: Vec<File>,
        folder_log: Vec<ChangedFolder>,
        file_log: Vec<ChangedFile>,
    ) -> (r: Result<Store, Error>)
        ensures
            ({
                let given = StoreView {
                    drives: rows(drives@),
                    folders: rows(folders@),
                    files: rows(files@),
                    folder_log: rows(folder_log@),
                    file_log: rows(file_log@),
                };
                match r {
                    Ok(store) => given.wf() && store@ == given && store.wf(),
                    Err(e) => !given.wf() && e == Error::DataIntegrityError,
                }
            }),
    {
        let ghost given = StoreView {
            drives: rows(drives@),
            folders: rows(folders@),
            files: rows(files@),
            folder_log: rows(folder_log@),
            file_log: rows(file_log@),
        };
        let store = Store { drives, folders, files, folder_log, file_log };
        let ghost s = store@;
        proof {
            assert(s == given);
        }
        if !(all_unique(&store.drives) && all_unique(&store.folders) && all_unique(&store.files)
            && all_unique(&store.folder_log) && all_unique(&store.file_log)) {
            return Err(Error::DataIntegrityError);
        }
        let mut k: usize = 0;
        while k < store.folders.len()
            invariant
                k <= store.folders.len(),
                s == store@,
                s == given,
                given == (StoreView {
                    drives: rows(drives@),
                    folders: rows(folders@),
                    files: rows(files@),
                    folder_log: rows(folder_log@),
                    file_log: rows(file_log@),
                }),
                forall|i: int|
                    0 <= i < k ==> present(
                        s.drives,
                        (#[trigger] s.folders[i]).drive_id,
                        s.folders[i].drive_id,
                    ),
            decreases store.folders.len() - k,
        {
            proof {
                assert(s.folders[k as int] == store.folders[k as int]@);
            }
            let d = &store.folders[k].drive_id;
            if find(&store.drives, d, d).is_none() {
                return Err(Error::DataIntegrityError);
            }
            k += 1;
        }
        if !is_tree(&store.folders) {
            return Err(Error::DataIntegrityError);
        }
        let mut k: usize = 0;
        while k < store.files.len()
            invariant
                k <= store.files.len(),
                s == store@,
                s == given,
                given == (StoreView {
                    drives: rows(drives@),
                    folders: rows(folders@),
                    files: rows(files@),
                    folder_log: rows(folder_log@),
                    file_log: rows(file_log@),
                }),
                forall|i: int|
                    0 <= i < k ==> present(
                        s.folders,
                        (#[trigger] s.files[i]).drive_id,
                        s.files[i].parent,
                    ),
            decreases store.files.len() - k,
        {
            proof {
                assert(s.files[k as int] == store.files[k as int]@);
            }
            if find(&store.folders, &store.files[k].drive_id, &store.files[k].parent).is_none() {
                return Err(Error::DataIntegrityError);
            }
            k += 1;
        }
        let mut k: usize = 0;
        while k < store.folder_log.len()
            invariant
                k <= store.folder_log.len(),
                s == store@,
                s == given,
                given == (StoreView {
                    drives: rows(drives@),
                    folders: rows(folders@),
                    files: rows(files@),
                    folder_log: rows(folder_log@),
                    file_log: rows(file_log@),
                }),
                unique(s.folders),
                forall|i: int| 0 <= i < k ==> folder_entry_ok(s.folders, #[trigger] s.folder_log[i]),
            decreases store.folder_log.len() - k,
        {
            proof {
                assert(s.folder_log[k as int] == store.folder_log[k as int]@);
            }
            let fine = match &store.folder_log[k] {
                ChangedFolder::Created(f) => match find(&store.folders, &f.drive_id, &f.id) {
                    Some(j) => same_folder(&store.folders[j], f),
                    None => false,
                },
                ChangedFolder::Deleted(f) => find(&store.folders, &f.drive_id, &f.id).is_none(),
            };
            if !fine {
                return Err(Error::DataIntegrityError);
            }
            k += 1;
        }
        let mut k: usize = 0;
        while k < store.file_log.len()
            invariant
                k <= store.file_log.len(),
                s == store@,
                s == given,
                given == (StoreView {
                    drives: rows(drives@),
                    folders: rows(folders@),
                    files: rows(files@),
                    folder_log: rows(folder_log@),
                    file_log: rows(file_log@),
                }),
                unique(s.files),
                forall|i: int| 0 <= i < k ==> file_entry_ok(s.files, #[trigger] s.file_log[i]),
            decreases store.file_log.len() - k,
        {
            proof {
                assert(s.file_log[k as int] == store.file_log[k as int]@);
            }
            let fine = match &store.file_log[k] {
                ChangedFile::Created(y) => match find(&store.files, &y.drive_id, &y.id) {
                    Some(j) => same_file(&store.files[j], y),
                    None => false,
                },
                ChangedFile::Deleted(y) => find(&store.files, &y.drive_id, &y.id).is_none(),
            };
            if !fine {
                return Err(Error::DataIntegrityError);
            }
            k += 1;
        }
        // which removed folders can be traced to the top
        let n = store.folder_log.len();
        let mut marks: Vec<bool> = Vec::new();
        while marks.len() < n
            invariant
                marks.len() <= n,
                forall|i: int| 0 <= i < marks.len() ==> !marks[i],
            decreases n - marks.len(),
        {
            marks.push(false);
        }
        let mut progress = true;
        while progress
            invariant
                n == store.folder_log.len(),
                s == store@,
                unique(s.folders),
                unique(s.folder_log),
                entry_marks_sound(s, marks@),
                !progress ==> entry_marks_full(s, marks@),
            decreases todo(marks@), (if progress { 1nat } else { 0nat }),
        {
            progress = false;
            let ghost before = todo(marks@);
            let mut k: usize = 0;
            while k < n
                invariant
                    k <= n,
                    n == store.folder_log.len(),
                    s == store@,
                    unique(s.folders),
                    unique(s.folder_log),
                    entry_marks_sound(s, marks@),
                    todo(marks@) <= before,
                    progress ==> todo(marks@) < before,
                    !progress ==> forall|i: int|
                        0 <= i < k && !#[trigger] marks[i] ==> !entry_markable(s, marks@, i),
                decreases n - k,
            {
                proof {
                    assert(s.folder_log[k as int] == store.folder_log[k as int]@);
                }
                if !marks[k] {
                    let f = match &store.folder_log[k] {
                        ChangedFolder::Created(f) => f,
                        ChangedFolder::Deleted(f) => f,
                    };
                    let mut fits = find(&store.folders, &f.drive_id, &f.id).is_some();
                    if !fits {
                        fits = match &f.parent {
                            None => true,
                            Some(p) => {
                                if find(&store.folders, &f.drive_id, p).is_some() {
                                    true
                                } else {
                                    match find(&store.folder_log, &f.drive_id, p) {
                                        Some(j) => marks[j],
                                        None => false,
                                    }
                                }
                            },
                        };
                    }
                    assert(fits == entry_markable(s, marks@, k as int));
                    if fits {
                        proof {
                            lemma_entry_mark(s, marks@, k as int);
                            lemma_todo_update(marks@, k as int);
                        }
                        marks.set(k, true);
                        progress = true;
                    }
                }
                k += 1;
            }
        }
        let mut k: usize = 0;
        while k < store.folder_log.len()
            invariant
                k <= store.folder_log.len(),
                s == store@,
                s == given,
                given == (StoreView {
                    drives: rows(drives@),
                    folders: rows(folders@),
                    files: rows(files@),
                    folder_log: rows(folder_log@),
                    file_log: rows(file_log@),
                }),
                unique(s.folders),
                unique(s.folder_log),
                entry_marks_sound(s, marks@),
                entry_marks_full(s, marks@),
                forall|i: int| 0 <= i < k ==> s.folder_entry_traced(#[trigger] s.folder_log[i]),
            decreases store.folder_log.len() - k,
        {
            proof {
                assert(s.folder_log[k as int] == store.folder_log[k as int]@);
            }
            let f = match &store.folder_log[k] {
                ChangedFolder::Created(f) => f,
                ChangedFolder::Deleted(f) => f,
            };
            proof {
                let e = s.folder_log[k as int];
                assert(e.folder == f@);
                if e.folder.parent is Some {
                    lemma_entry_marks_decide(s, marks@, e.folder.drive_id, e.folder.parent.unwrap());
                }
            }
            let fine = match &f.parent {
                None => f.id == f.drive_id,
                Some(p) => {
                    if find(&store.folders, &f.drive_id, p).is_some() {
                        true
                    } else {
                        match find(&store.folder_log, &f.drive_id, p) {
                            Some(j) => marks[j],
                            None => false,
                        }
                    }
                },
            };
            assert(fine == s.folder_entry_traced(s.folder_log[k as int]));
            if !fine {
                return Err(Error::DataIntegrityError);
            }
            k += 1;
        }
        let mut k: usize = 0;
        while k < store.file_log.len()
            invariant
                k <= store.file_log.len(),
                s == store@,
                s == given,
                given == (StoreView {
                    drives: rows(drives@),
                    folders: rows(folders@),
                    files: rows(files@),
                    folder_log: rows(folder_log@),
                    file_log: rows(file_log@),
                }),
                unique(s.folders),
                unique(s.folder_log),
                entry_marks_sound(s, marks@),
                entry_marks_full(s, marks@),
                forall|i: int| 0 <= i < k ==> s.file_entry_traced(#[trigger] s.file_log[i]),
            decreases store.file_log.len() - k,
        {
            proof {
                assert(s.file_log[k as int] == store.file_log[k as int]@);
            }
            let y = match &store.file_log[k] {
                ChangedFile::Created(y) => y,
                ChangedFile::Deleted(y) => y,
            };
            proof {
                let e = s.file_log[k as int];
                assert(e.file == y@);
                lemma_entry_marks_decide(s, marks@, e.file.drive_id, e.file.parent);
            }
            let fine = if find(&store.folders, &y.drive_id, &y.parent).is_some() {
                true
            } else {
                match find(&store.folder_log, &y.drive_id, &y.parent) {
                    Some(j) => marks[j],
                    None => false,
                }
            };
            assert(fine == s.file_entry_traced(s.file_log[k as int]));
            if !fine {
                return Err(Error::DataIntegrityError);
            }
            k += 1;
        }
        Ok(store)
    }

    /// The drives of the replica.
    pub fn drives(&self) -> (r: Vec<Drive>)
        ensures
            rows(r@) == self@.drives,
    {
        copy_rows(&self.drives)
    }
}

/// Sets the cursor of a drive, if the replica holds the drive.
fn update_page_token(store: &mut Store, d: &String, page_token: &String)
    requires
        old(store).wf(),
    ensures
        final(store)@ == old(store)@.set_token(d@, page_token@),
        final(store).wf(),
{
    proof {
        lemma_set_token_wf(store@, d@, page_token@);
    }
    match find(&store.drives, d, d) {
        Some(_) => {
            upsert(&mut store.drives, Drive { id: d.clone(), page_token: page_token.clone() });
        },
        None => {},
    }
}

/// Upserts a folder that may be upserted, and logs it as existing.
fn upsert_folder(store: &mut Store, f: Folder)
    requires
        old(store).wf(),
        old(store)@.can_put_folder(f@),
    ensures
        final(store)@ == old(store)@.put_folder(f@),
        final(store).wf(),
{
    proof {
        lemma_put_folder_wf(store@, f@);
    }
    upsert(&mut store.folder_log, ChangedFolder::Created(f.clone()));
    upsert(&mut store.folders, f);
}

/// Upserts a file whose parent the replica holds, and logs it as
/// existing.
fn upsert_file(store: &mut Store, y: File)
    requires
        old(store).wf(),
        old(store)@.can_put_file(y@),
    ensures
        final(store)@ == old(store)@.put_file(y@),
        final(store).wf(),
{
    proof {
        lemma_put_file_wf(store@, y@);
    }
    upsert(&mut store.file_log, ChangedFile::Created(y.clone()));
    upsert(&mut store.files, y);
}

/// Gives the root folder of a drive a new name, if the drive has one.
fn update_drive_name(store: &mut Store, d: &String, name: &String)
    requires
        old(store).wf(),
    ensures
        final(store)@ == old(store)@.rename_root(d@, name@),
        final(store).wf(),
{
    proof {
        lemma_rename_root_wf(store@, d@, name@);
    }
    match find(&store.folders, d, d) {
        Some(k) => {
            let root = Folder {
                id: store.folders[k].id.clone(),
                drive_id: store.folders[k].drive_id.clone(),
                name: name.clone(),
                trashed: store.folders[k].trashed,
                parent: None,
            };
            upsert_folder(store, root);
        },
        None => {},
    }
}

/// Removes an item of a drive with everything below it, and logs each
/// row that goes as removed.
fn delete_file_or_folder(store: &mut Store, d: &String, id: &String)
    requires
        old(store).wf(),
    ensures
        final(store)@ == old(store)@.remove_item(d@, id@),
        final(store).wf(),
{
    let ghost s = store@;
    let ghost fs = s.folders;
    let ghost ys = s.files;
    let ghost gone = subtree(fs, d@, id@);
    let ghost gone_files = files_below(fs, d@, id@);
    proof {
        lemma_remove_item_wf(s, d@, id@);
        reveal(Seq::filter);
        assert(fs.take(0) =~= Seq::empty());
        assert(ys.take(0) =~= Seq::empty());
    }
    let mut kept: Vec<Folder> = Vec::new();
    let mut i: usize = 0;
    while i < store.folders.len()
        invariant
            i <= store.folders.len(),
            store@.drives == s.drives,
            rows(store.folders@) == fs,
            rows(store.files@) == ys,
            store@.file_log == s.file_log,
            s.wf(),
            s.folders == fs,
            s.files == ys,
            gone == subtree(fs, d@, id@),
            rows(kept@) == fs.take(i as int).filter(spared(gone)),
            store@.folder_log == log_all(
                s.folder_log,
                fs.take(i as int).filter(gone),
                deleted_folder(),
            ),
        decreases store.folders.len() - i,
    {
        proof {
            reveal(Seq::filter);
            let t = fs.take(i + 1);
            assert(t.drop_last() =~= fs.take(i as int));
            assert(t.last() == fs[i as int]);
            lemma_log_all(s.folder_log, fs.take(i as int).filter(gone), deleted_folder());
        }
        let doomed = store.folders[i].drive_id == *d && is_under(&store.folders, i, id);
        proof {
            assert(fs[i as int] == store.folders[i as int]@);
            assert(doomed == gone(fs[i as int]));
        }
        if doomed {
            upsert(&mut store.folder_log, ChangedFolder::Deleted(store.folders[i].clone()));
            proof {
                let picked = fs.take(i + 1).filter(gone);
                assert(picked.drop_last() =~= fs.take(i as int).filter(gone));
            }
        } else {
            kept.push(store.folders[i].clone());
            proof {
                assert(rows(kept@) =~= fs.take(i + 1).filter(spared(gone)));
            }
        }
        i += 1;
    }
    let mut kept_files: Vec<File> = Vec::new();
    let mut j: usize = 0;
    proof {
        assert(fs.take(fs.len() as int) =~= fs);
    }
    while j < store.files.len()
        invariant
            j <= store.files.len(),
            store@.drives == s.drives,
            rows(store.folders@) == fs,
            rows(store.files@) == ys,
            store@.folder_log == log_all(s.folder_log, fs.filter(gone), deleted_folder()),
            s.wf(),
            s.folders == fs,
            s.files == ys,
            gone_files == files_below(fs, d@, id@),
            rows(kept_files@) == ys.take(j as int).filter(spared(gone_files)),
            store@.file_log == log_all(
                s.file_log,
                ys.take(j as int).filter(gone_files),
                deleted_file(),
            ),
        decreases store.files.len() - j,
    {
        proof {
            reveal(Seq::filter);
            let t = ys.take(j + 1);
            assert(t.drop_last() =~= ys.take(j as int));
            assert(t.last() == ys[j as int]);
            lemma_log_all(s.file_log, ys.take(j as int).filter(gone_files), deleted_file());
        }
        let mut doomed = false;
        if store.files[j].drive_id == *d {
            if store.files[j].id == *id {
                doomed = true;
            } else {
                match find(&store.folders, d, &store.files[j].parent) {
                    Some(k) => {
                        doomed = is_under(&store.folders, k, id);
                    },
                    None => {},
                }
            }
        }
        proof {
            assert(ys[j as int] == store.files[j as int]@);
            assert(doomed == gone_files(ys[j as int]));
        }
        if doomed {
            upsert(&mut store.file_log, ChangedFile::Deleted(store.files[j].clone()));
            proof {
                let picked = ys.take(j + 1).filter(gone_files);
                assert(picked.drop_last() =~= ys.take(j as int).filter(gone_files));
            }
        } else {
            kept_files.push(store.files[j].clone());
            proof {
                assert(rows(kept_files@) =~= ys.take(j + 1).filter(spared(gone_files)));
            }
        }
        j += 1;
    }
    proof {
        assert(ys.take(ys.len() as int) =~= ys);
    }
    store.folders = kept;
    store.files = kept_files;
}

/// Merges a list of changes of one drive into the replica, as one
/// transaction. The cursor of the drive is set first; then the changes
/// are applied in order. An item that has moved to another drive counts
/// as removed from this one.
///
/// A change that names a drive or a parent that the replica does not
/// hold, or that would put a folder below itself, fails the merge with
/// [`Error::DataIntegrityError`], and the replica is left as it was,
/// cursor included.
pub fn merge_changes(store: &mut Store, drive_id: &str, changes: Vec<Change>, page_token: &str) -> (r:
    Result<(), Error>)
    requires
        old(store).wf(),
    ensures
        final(store).wf(),
        match old(store)@.merge(drive_id@, changes_view(changes@), page_token@) {
            Some(t) => r is Ok && final(store)@ == t,
            None => r == Err::<(), Error>(Error::DataIntegrityError) && final(store)@ == old(
                store,
            )@,
        },
{
    let d = drive_id.to_owned();
    let token = page_token.to_owned();
    let ghost cs = changes_view(changes@);
    let mut work = store.copy();
    update_page_token(&mut work, &d, &token);
    let mut i: usize = 0;
    proof {
        assert(cs.skip(0) =~= cs);
    }
    while i < changes.len()
        invariant
            i <= changes.len(),
            cs == changes_view(changes@),
            d@ == drive_id@,
            work.wf(),
            store.wf(),
            store@ == old(store)@,
            old(store)@.merge(drive_id@, cs, page_token@) == work@.apply_all(
                d@,
                cs.skip(i as int),
            ),
        decreases changes.len() - i,
    {
        proof {
            let rest = cs.skip(i as int);
            assert(rest.first() == changes@[i as int]@);
            assert(rest.drop_first() =~= cs.skip(i + 1));
        }
        let ok = work.apply_change(&d, &changes[i]);
        if !ok {
            return Err(Error::DataIntegrityError);
        }
        i += 1;
    }
    *store = work;
    Ok(())
}

/// Clears the changelog of a drive.
pub fn clear_changelog(store: &mut Store, drive_id: &str)
    requires
        old(store).wf(),
    ensures
        final(store)@ == old(store)@.clear_changelog(drive_id@),
        final(store).wf(),
{
    proof {
        lemma_clear_changelog_wf(store@, drive_id@);
    }
    let d = drive_id.to_owned();
    let (_, rest) = split_drive(&store.folder_log, &d);
    store.folder_log = rest;
    let (_, rest) = split_drive(&store.file_log, &d);
    store.file_log = rest;
}

/// Removes a drive with its folders, its files and its changelog. Where
/// the replica does not hold the drive, nothing of the tables changes.
pub fn remove_drive(store: &mut Store, drive_id: &str)
    requires
        old(store).wf(),
    ensures
        final(store)@ == old(store)@.remove_drive(drive_id@),
        final(store).wf(),
        !present(final(store)@.drives, drive_id@, drive_id@),
{
    proof {
        lemma_remove_drive_wf(store@, drive_id@);
        crate::database::tables::lemma_filter_get(
            store@.drives,
            spared(in_drive::<DriveView>(drive_id@)),
        );
        if present(store@.drives, drive_id@, drive_id@) {
            lemma_get_some(store@.drives, drive_id@, drive_id@);
        }
    }
    let d = drive_id.to_owned();
    clear_changelog(store, drive_id);
    let (_, rest) = split_drive(&store.files, &d);
    store.files = rest;
    let (_, rest) = split_drive(&store.folders, &d);
    store.folders = rest;
    let (_, rest) = split_drive(&store.drives, &d);
    store.drives = rest;
}

/// The drive with this id, if the replica holds it.
pub fn get_drive(store: &Store, drive_id: &str) -> (r: Option<Drive>)
    requires
        store.wf(),
    ensures
        match r {
            Some(drive) => get(store@.drives, drive_id@, drive_id@) == Some(drive@),
            None => !present(store@.drives, drive_id@, drive_id@),
        },
{
    let d = drive_id.to_owned();
    match find(&store.drives, &d, &d) {
        Some(k) => Some(store.drives[k].clone()),
        None => None,
    }
}

/// The folder changelog of a drive: one entry for each folder that the
/// last merge upserted or removed, in the order in which the entries
/// were first made.
pub fn get_changed_folders(store: &Store, drive_id: &str) -> (r: Vec<ChangedFolder>)
    ensures
        rows(r@) == store@.folder_log.filter(in_drive(drive_id@)),
{
    let d = drive_id.to_owned();
    let (mine, _) = split_drive(&store.folder_log, &d);
    mine
}

/// The file changelog of a drive: one entry for each file that the last
/// merge upserted or removed, in the order in which the entries were
/// first made.
pub fn get_changed_files(store: &Store, drive_id: &str) -> (r: Vec<ChangedFile>)
    ensures
        rows(r@) == store@.file_log.filter(in_drive(drive_id@)),
{
    let d = drive_id.to_owned();
    let (mine, _) = split_drive(&store.file_log, &d);
    mine
}

/// Loads a drive for the first time, as one transaction: the drive with
/// its cursor, its root folder with the drive's id and name, and the
/// items of the listing. An item is inserted once the folder that it
/// names as its parent is there, whatever the order of the listing. An
/// item whose parent never comes, or that belongs to another drive, is
/// left out and handed back, in the order of the listing. The changelog
/// of the drive is empty afterwards.
///
/// The load fails with [`Error::UnknownError`], and leaves the replica
/// as it was, where the replica holds the drive already, where two items
/// of the listing would be the same row, or where a listed folder has
/// the id of the drive.
pub fn add_drive(
    store: &mut Store,
    id: &str,
    name: &str,
    page_token: &str,
    items: Vec<Item>,
) -> (r: Result<Vec<Item>, Error>)
    requires
        old(store).wf(),
    ensures
        final(store).wf(),
        r is Err <==> present(old(store)@.drives, id@, id@) || clashes(items_view(items@), id@),
        r matches Err(e) ==> e == Error::UnknownError && final(store)@ == old(store)@,
        r matches Ok(skipped) ==> loaded(
            old(store)@,
            id@,
            name@,
            page_token@,
            items_view(items@),
            final(store)@,
        ) && items_view(skipped@) == items_view(items@).filter(left_out(final(store)@, id@)),
{
    let d = id.to_owned();
    if find(&store.drives, &d, &d).is_some() || listing_clashes(&items, &d) {
        return Err(Error::UnknownError);
    }
    let ghost s = store@;
    let ghost its = items_view(items@);
    let mut work = store.copy();
    clear_changelog(&mut work, id);
    work.drives.push(NewDrive { id, page_token }.to_drive());
    work.folders.push(
        NewFolder { drive_id: id, id, name, parent: None, trashed: false }.to_folder(),
    );
    let n = items.len();
    let mut done: Vec<bool> = Vec::new();
    while done.len() < n
        invariant
            done.len() <= n,
            forall|i: int| 0 <= i < done.len() ==> !done[i],
        decreases n - done.len(),
    {
        done.push(false);
    }
    proof {
        assert(work@.drives =~= s.open_drive(id@, name@, page_token@).drives);
        assert(work@.folders =~= s.open_drive(id@, name@, page_token@).folders);
        assert(work@ == s.open_drive(id@, name@, page_token@));
        lemma_loading_start(s, id@, name@, page_token@, its, done@);
    }
    let mut progress = true;
    while progress
        invariant
            n == items.len(),
            its == items_view(items@),
            d@ == id@,
            s.wf(),
            loading(s, id@, name@, page_token@, its, done@, work@),
            !progress ==> forall|i: int|
                0 <= i < its.len() && !done[i] ==> !attachable(work@, id@, #[trigger] its[i]),
        decreases todo(done@), (if progress { 1nat } else { 0nat }),
    {
        progress = false;
        let ghost before = todo(done@);
        let mut i: usize = 0;
        while i < n
            invariant
                i <= n,
                n == items.len(),
                its == items_view(items@),
                d@ == id@,
                s.wf(),
                loading(s, id@, name@, page_token@, its, done@, work@),
                todo(done@) <= before,
                progress ==> todo(done@) < before,
                !progress ==> forall|k: int|
                    0 <= k < i && !done[k] ==> !attachable(work@, id@, #[trigger] its[k]),
            decreases n - i,
        {
            proof {
                assert(its[i as int] == items[i as int]@);
            }
            if !done[i] {
                match &items[i] {
                    Item::Folder(f) => {
                        let mut fits = false;
                        if f.drive_id == d {
                            match &f.parent {
                                Some(p) => {
                                    fits = find(&work.folders, &d, p).is_some();
                                },
                                None => {},
                            }
                        }
                        assert(fits == attachable(work@, id@, its[i as int]));
                        if fits {
                            proof {
                                lemma_loading_folder(
                                    s,
                                    id@,
                                    name@,
                                    page_token@,
                                    its,
                                    done@,
                                    work@,
                                    i as int,
                                );
                                lemma_todo_update(done@, i as int);
                            }
                            let ghost prior = work@;
                            work.folders.push(f.clone());
                            done.set(i, true);
                            progress = true;
                            proof {
                                assert(work@.folders =~= prior.folders.push(f@));
                                assert(work@ == prior.attach_folder(f@));
                            }
                        }
                    },
                    Item::File(y) => {
                        let fits = y.drive_id == d && find(
                            &work.folders,
                            &d,
                            &y.parent,
                        ).is_some();
                        assert(fits == attachable(work@, id@, its[i as int]));
                        if fits {
                            proof {
                                lemma_loading_file(
                                    s,
                                    id@,
                                    name@,
                                    page_token@,
                                    its,
                                    done@,
                                    work@,
                                    i as int,
                                );
                                lemma_todo_update(done@, i as int);
                            }
                            let ghost prior = work@;
                            work.files.push(y.clone());
                            done.set(i, true);
                            progress = true;
                            proof {
                                assert(work@.files =~= prior.files.push(y@));
                                assert(work@ == prior.attach_file(y@));
                            }
                        }
                    },
                }
            }
            i += 1;
        }
    }
    proof {
        lemma_loading_end(s, id@, name@, page_token@, its, done@, work@);
        reveal(Seq::filter);
        assert(its.take(0) =~= Seq::empty());
    }
    let mut skipped: Vec<Item> = Vec::new();
    let mut i: usize = 0;
    while i < n
        invariant
            i <= n,
            n == items.len(),
            done.len() == n,
            its == items_view(items@),
            forall|k: int| 0 <= k < its.len() ==> (done[k] <==> holds_item(work@, id@, #[trigger] its[k])),
            items_view(skipped@) == its.take(i as int).filter(left_out(work@, id@)),
        decreases n - i,
    {
        proof {
            reveal(Seq::filter);
            let t = its.take(i + 1);
            assert(t.drop_last() =~= its.take(i as int));
            assert(t.last() == its[i as int]);
            assert(its[i as int] == items[i as int]@);
        }
        if !done[i] {
            skipped.push(items[i].clone());
            proof {
                assert(items_view(skipped@) =~= its.take(i + 1).filter(left_out(work@, id@)));
            }
        }
        i += 1;
    }
    proof {
        assert(its.take(n as int) =~= its);
    }
    *store = work;
    Ok(skipped)
}

/// The folder changelog of a drive, each entry with its path.
pub fn get_changed_folders_paths(store: &Store, drive_id: &str) -> (r: Vec<(ChangedFolder, ChangedPath)>)
    requires
        store.wf(),
    ensures
        r@.len() == store@.folder_log.filter(in_drive(drive_id@)).len(),
        forall|i: int|
            0 <= i < r@.len() ==> {
                let e = store@.folder_log.filter(in_drive(drive_id@))[i];
                (#[trigger] r@[i]).0@ == e && r@[i].1@ == store@.changed_folder_path()(e)
            },
{
    let entries = get_changed_folders(store, drive_id);
    let mut out: Vec<(ChangedFolder, ChangedPath)> = Vec::new();
    let mut i: usize = 0;
    while i < entries.len()
        invariant
            i <= entries.len(),
            store.wf(),
            rows(entries@) == store@.folder_log.filter(in_drive(drive_id@)),
            out@.len() == i,
            forall|k: int|
                0 <= k < i ==> {
                    let e = rows(entries@)[k];
                    (#[trigger] out@[k]).0@ == e && out@[k].1@ == store@.changed_folder_path()(e)
                },
        decreases entries.len() - i,
    {
        proof {
            let log = store@.folder_log;
            let e = rows(entries@)[i as int];
            assert(e == entries[i as int]@);
            lemma_filter_rows(log, in_drive::<crate::model::ChangedFolderView>(drive_id@));
            assert(log.contains(e));
            let at = choose|at: int| 0 <= at < log.len() && log[at] == e;
            assert(store@.folder_entry_traced(log[at]));
        }
        let pair = match &entries[i] {
            ChangedFolder::Created(f) => (
                ChangedFolder::Created(f.clone()),
                ChangedPath::Created(store.path_of_folder(f)),
            ),
            ChangedFolder::Deleted(f) => (
                ChangedFolder::Deleted(f.clone()),
                ChangedPath::Deleted(store.path_of_folder(f)),
            ),
        };
        out.push(pair);
        i += 1;
    }
    out
}

/// The file changelog of a drive, each entry with its path.
pub fn get_changed_files_paths(store: &Store, drive_id: &str) -> (r: Vec<(ChangedFile, ChangedPath)>)
    requires
        store.wf(),
    ensures
        r@.len() == store@.file_log.filter(in_drive(drive_id@)).len(),
        forall|i: int|
            0 <= i < r@.len() ==> {
                let e = store@.file_log.filter(in_drive(drive_id@))[i];
                (#[trigger] r@[i]).0@ == e && r@[i].1@ == store@.changed_file_path()(e)
            },
{
    let entries = get_changed_files(store, drive_id);
    let mut out: Vec<(ChangedFile, ChangedPath)> = Vec::new();
    let mut i: usize = 0;
    while i < entries.len()
        invariant
            i <= entries.len(),
            store.wf(),
            rows(entries@) == store@.file_log.filter(in_drive(drive_id@)),
            out@.len() == i,
            forall|k: int|
                0 <= k < i ==> {
                    let e = rows(entries@)[k];
                    (#[trigger] out@[k]).0@ == e && out@[k].1@ == store@.changed_file_path()(e)
                },
        decreases entries.len() - i,
    {
        proof {
            let log = store@.file_log;
            let e = rows(entries@)[i as int];
            assert(e == entries[i as int]@);
            lemma_filter_rows(log, in_drive::<crate::model::ChangedFileView>(drive_id@));
            assert(log.contains(e));
            let at = choose|at: int| 0 <= at < log.len() && log[at] == e;
            assert(store@.file_entry_traced(log[at]));
        }
        let pair = match &entries[i] {
            ChangedFile::Created(y) => (
                ChangedFile::Created(y.clone()),
                ChangedPath::Created(store.path_of_file(y)),
            ),
            ChangedFile::Deleted(y) => (
                ChangedFile::Deleted(y.clone()),
                ChangedPath::Deleted(store.path_of_file(y)),
            ),
        };
        out.push(pair);
        i += 1;
    }
    out
}

/// The changed paths of a drive: one for each entry of its folder
/// changelog, then one for each entry of its file changelog. The path
/// of an entity that exists is that of the tree as it now is; the path
/// of a removed one is made of its last name below its last parent.
pub fn get_changed_paths(store: &Store, drive_id: &str) -> (r: Vec<ChangedPath>)
    requires
        store.wf(),
    ensures
        rows(r@) == store@.changed_paths(drive_id@),
{
    let ghost fl = store@.folder_log.filter(in_drive(drive_id@));
    let ghost yl = store@.file_log.filter(in_drive(drive_id@));
    let ghost fp = store@.changed_folder_path();
    let ghost yp = store@.changed_file_path();
    let folders = get_changed_folders(store, drive_id);
    let files = get_changed_files(store, drive_id);
    let mut out: Vec<ChangedPath> = Vec::new();
    let mut i: usize = 0;
    proof {
        assert(rows(out@) =~= fl.take(0).map_values(fp));
    }
    while i < folders.len()
        invariant
            i <= folders.len(),
            store.wf(),
            rows(folders@) == fl,
            fl == store@.folder_log.filter(in_drive(drive_id@)),
            fp == store@.changed_folder_path(),
            rows(out@) == fl.take(i as int).map_values(fp),
        decreases folders.len() - i,
    {
        proof {
            let log = store@.folder_log;
            assert(fl[i as int] == folders[i as int]@);
            lemma_filter_rows(log, in_drive::<crate::model::ChangedFolderView>(drive_id@));
            assert(log.contains(fl[i as int]));
            let at = choose|at: int| 0 <= at < log.len() && log[at] == fl[i as int];
            assert(store@.folder_entry_traced(log[at]));
        }
        let path = match &folders[i] {
            ChangedFolder::Created(f) => ChangedPath::Created(store.path_of_folder(f)),
            ChangedFolder::Deleted(f) => ChangedPath::Deleted(store.path_of_folder(f)),
        };
        let ghost prev = rows(out@);
        proof {
            assert(path@ == fp(fl[i as int]));
        }
        out.push(path);
        proof {
            assert(rows(out@) =~= prev.push(fp(fl[i as int])));
            assert(fl.take(i + 1) =~= fl.take(i as int).push(fl[i as int]));
            assert(fl.take(i + 1).map_values(fp) =~= fl.take(i as int).map_values(fp).push(
                fp(fl[i as int]),
            ));
        }
        i += 1;
    }
    let mut j: usize = 0;
    proof {
        assert(fl.take(fl.len() as int) =~= fl);
        assert(rows(out@) =~= fl.map_values(fp) + yl.take(0).map_values(yp));
    }
    while j < files.len()
        invariant
            j <= files.len(),
            store.wf(),
            rows(files@) == yl,
            yl == store@.file_log.filter(in_drive(drive_id@)),
            yp == store@.changed_file_path(),
            rows(out@) == fl.map_values(fp) + yl.take(j as int).map_values(yp),
        decreases files.len() - j,
    {
        proof {
            let log = store@.file_log;
            assert(yl[j as int] == files[j as int]@);
            lemma_filter_rows(log, in_drive::<crate::model::ChangedFileView>(drive_id@));
            assert(log.contains(yl[j as int]));
            let at = choose|at: int| 0 <= at < log.len() && log[at] == yl[j as int];
            assert(store@.file_entry_traced(log[at]));
        }
        let path = match &files[j] {
            ChangedFile::Created(y) => ChangedPath::Created(store.path_of_file(y)),
            ChangedFile::Deleted(y) => ChangedPath::Deleted(store.path_of_file(y)),
        };
        let ghost prev = rows(out@);
        proof {
            assert(path@ == yp(yl[j as int]));
        }
        out.push(path);
        proof {
            assert(rows(out@) =~= prev.push(yp(yl[j as int])));
            assert(yl.take(j + 1) =~= yl.take(j as int).push(yl[j as int]));
            assert(yl.take(j + 1).map_values(yp) =~= yl.take(j as int).map_values(yp).push(
                yp(yl[j as int]),
            ));
            assert(rows(out@) =~= fl.map_values(fp) + yl.take(j + 1).map_values(yp));
        }
        j += 1;
    }
    proof {
        assert(yl.take(yl.len() as int) =~= yl);
    }
    out
}


} // verus!
