//! What holds of the merge engine as a whole.

use vstd::prelude::*;
use crate::fetch::{ChangeView, ItemView};
use crate::model::{ChangedFileView, ChangedFolderView, DriveView, FolderView};
use crate::database::sound::{lemma_apply_wf, lemma_rename_root_wf, lemma_set_token_wf, lemma_top_is_root};
use crate::database::state::{
    created_file,
    created_folder,
    deleted_file,
    deleted_folder,
    files_below,
    lemma_log_all,
    log_all,
    StoreView,
};
use crate::database::tables::{
    at_key,
    get,
    in_drive,
    index_of,
    lemma_filter_get,
    lemma_filter_rows,
    lemma_get_at,
    lemma_get_some,
    lemma_put,
    present,
    spared,
    unique,
    without,
    Row,
};
use crate::database::tree::{
    climbs,
    descends,
    height,
    lemma_step,
    lemma_under_step,
    names_to,
    parent_of,
    rooted,
    subtree,
    under,
};
use crate::text::joined;

verus! {

/// Where following parents from `x` meets the id `r`, the folder with that
/// id reaches the root in fewer steps than `x` does, or is `x` itself.
proof fn lemma_met_is_nearer(fs: Seq<FolderView>, x: FolderView, r: Seq<char>, n: nat, m: nat)
    requires
        unique(fs),
        fs.contains(x),
        climbs(fs, x, n),
        descends(fs, x, r, m),
    ensures
        get(fs, x.drive_id, r) matches Some(y) && climbs(fs, y, n),
    decreases m,
{
    if x.id == r {
        let j = choose|j: int| 0 <= j < fs.len() && fs[j] == x;
        lemma_get_at(fs, j);
    } else {
        let p = x.parent.unwrap();
        lemma_get_some(fs, x.drive_id, p);
        let g = get(fs, x.drive_id, p).unwrap();
        assert(fs[index_of(fs, x.drive_id, p)] == g);
        lemma_met_is_nearer(fs, g, r, (n - 1) as nat, (m - 1) as nat);
        let y = get(fs, x.drive_id, r).unwrap();
        crate::database::tree::lemma_climbs_more(fs, y, (n - 1) as nat, n);
    }
}

/// No folder that reaches the root lies at or below itself by way of its
/// parent.
proof fn lemma_no_cycle(fs: Seq<FolderView>, f: FolderView, n: nat)
    requires
        unique(fs),
        fs.contains(f),
        climbs(fs, f, n),
        f.parent is Some,
    ensures
        !under(fs, parent_of(fs, f).unwrap(), f.id),
    decreases n,
{
    let p = f.parent.unwrap();
    lemma_get_some(fs, f.drive_id, p);
    let g = get(fs, f.drive_id, p).unwrap();
    assert(fs[index_of(fs, f.drive_id, p)] == g);
    if under(fs, g, f.id) {
        let m = choose|m: nat| descends(fs, g, f.id, m);
        lemma_met_is_nearer(fs, g, f.id, (n - 1) as nat, m);
        let j = choose|j: int| 0 <= j < fs.len() && fs[j] == f;
        lemma_get_at(fs, j);
        assert(get(fs, f.drive_id, f.id) == Some(f));
        lemma_no_cycle(fs, f, (n - 1) as nat);
    }
}

/// The tree invariant holds of every folder of a well-formed replica. The
/// folder has no parent and is the root of its drive, with the drive's id;
/// or its parent is another folder of the same drive, and following
/// parents from there never comes back to the folder: no circle exists.
/// Every chain of parents ends at the root folder of the drive.
pub proof fn lemma_tree_invariant(s: StoreView, k: int)
    requires
        s.wf(),
        0 <= k < s.folders.len(),
    ensures
        ({
            let f = s.folders[k];
            match f.parent {
                None => f.id == f.drive_id,
                Some(p) => {
                    &&& p != f.id
                    &&& get(s.folders, f.drive_id, p) matches Some(g)
                    &&& g.drive_id == f.drive_id && g.id == p
                    &&& !under(s.folders, g, f.id)
                },
            }
        }),
        rooted(s.folders, s.folders[k]),
        get(s.folders, s.folders[k].drive_id, s.folders[k].drive_id) matches Some(root)
            && root.parent is None,
{
    let fs = s.folders;
    let f = fs[k];
    assert(rooted(fs, fs[k]));
    let n = height(fs, f);
    lemma_step(fs, f, n);
    lemma_top_is_root(fs, f, n);
    match f.parent {
        None => {},
        Some(p) => {
            let g = get(fs, f.drive_id, p).unwrap();
            lemma_no_cycle(fs, f, n);
            lemma_under_step(fs, g, f.id);
        },
    }
}

/// An item that has moved to another drive is merged as its removal: a
/// change that shows an item of another drive does to the replica of this
/// drive what the removal of the item's id does.
pub proof fn lemma_moved_item_is_removed(s: StoreView, d: Seq<char>, item: ItemView)
    requires
        item.drive_id() != d,
    ensures
        s.apply(d, ChangeView::ItemChanged(item)) == s.apply(d, ChangeView::ItemRemoved(item.id())),
        s.apply(d, ChangeView::ItemChanged(item)) == Some(s.remove_item(d, item.id())),
{
}

/// What entering rows in a changelog does to its keys: every key that was
/// there stays, the key of every row is there afterwards, and a lookup by
/// any other key gives what it gave.
pub proof fn lemma_log_all_keys<R, E: Row>(log: Seq<E>, rows: Seq<R>, entry: spec_fn(R) -> E)
    requires
        unique(log),
    ensures
        forall|a: Seq<char>, b: Seq<char>|
            present(log, a, b) ==> #[trigger] present(log_all(log, rows, entry), a, b),
        forall|j: int|
            0 <= j < rows.len() ==> present(
                log_all(log, rows, entry),
                entry(#[trigger] rows[j]).drive(),
                entry(rows[j]).ident(),
            ),
        forall|a: Seq<char>, b: Seq<char>|
            (forall|j: int| 0 <= j < rows.len() ==> !at_key(entry(#[trigger] rows[j]), a, b))
                ==> #[trigger] get(log_all(log, rows, entry), a, b) == get(log, a, b),
    decreases rows.len(),
{
    if rows.len() > 0 {
        let rows0 = rows.drop_last();
        let log0 = log_all(log, rows0, entry);
        let x = entry(rows.last());
        lemma_log_all_keys(log, rows0, entry);
        lemma_log_all(log, rows0, entry);
        lemma_put(log0, x);
        let out = log_all(log, rows, entry);
        assert forall|j: int| 0 <= j < rows.len() implies present(
            out,
            entry(#[trigger] rows[j]).drive(),
            entry(rows[j]).ident(),
        ) by {
            if j < rows0.len() {
                assert(rows0[j] == rows[j]);
            }
        }
        assert forall|a: Seq<char>, b: Seq<char>|
            (forall|j: int| 0 <= j < rows.len() ==> !at_key(entry(#[trigger] rows[j]), a, b))
            implies #[trigger] get(out, a, b) == get(log, a, b) by {
            assert(!at_key(entry(rows[rows.len() - 1]), a, b));
            assert forall|j: int| 0 <= j < rows0.len() implies !at_key(
                entry(#[trigger] rows0[j]),
                a,
                b,
            ) by {
                assert(rows0[j] == rows[j]);
            }
        }
    }
}

/// What one change does to the replica of drive `d` beyond the rows it
/// names. The drives stay as they are. Every folder and every file that is
/// not as it was before belongs to drive `d` and has an entry in the
/// changelog. Entries are never lost, and those of other drives stay as
/// they are.
pub proof fn lemma_apply_logs(s: StoreView, d: Seq<char>, c: ChangeView)
    requires
        s.wf(),
        s.apply(d, c) is Some,
    ensures
        ({
            let t = s.apply(d, c).unwrap();
            &&& t.drives == s.drives
            &&& forall|a: Seq<char>, b: Seq<char>| #[trigger]
                get(t.folders, a, b) != get(s.folders, a, b) ==> a == d && present(
                    t.folder_log,
                    a,
                    b,
                )
            &&& forall|a: Seq<char>, b: Seq<char>| #[trigger]
                get(t.files, a, b) != get(s.files, a, b) ==> a == d && present(t.file_log, a, b)
            &&& forall|a: Seq<char>, b: Seq<char>|
                present(s.folder_log, a, b) ==> #[trigger] present(t.folder_log, a, b)
            &&& forall|a: Seq<char>, b: Seq<char>|
                present(s.file_log, a, b) ==> #[trigger] present(t.file_log, a, b)
            &&& forall|a: Seq<char>, b: Seq<char>|
                a != d ==> #[trigger] get(t.folder_log, a, b) == get(s.folder_log, a, b)
            &&& forall|a: Seq<char>, b: Seq<char>|
                a != d ==> #[trigger] get(t.file_log, a, b) == get(s.file_log, a, b)
        }),
{
    let t = s.apply(d, c).unwrap();
    match StoreView::seen_from(d, c) {
        ChangeView::DriveChanged(drive) => {
            if drive.id == d {
                match get(s.folders, d, d) {
                    Some(root) => {
                        lemma_get_some(s.folders, d, d);
                        lemma_put_logs_folder(s, FolderView { name: drive.name, ..root });
                    },
                    None => {},
                }
            }
        },
        ChangeView::DriveRemoved(_) => {},
        ChangeView::ItemChanged(ItemView::Folder(f)) => {
            lemma_put_logs_folder(s, f);
        },
        ChangeView::ItemChanged(ItemView::File(y)) => {
            lemma_put(s.files, y);
            lemma_put(s.file_log, created_file()(y));
        },
        ChangeView::ItemRemoved(id) => {
            lemma_remove_logs(s, d, id);
        },
    }
}

/// What the upsert of a folder does beyond the row: see
/// [`lemma_apply_logs`].
proof fn lemma_put_logs_folder(s: StoreView, f: FolderView)
    requires
        s.wf(),
    ensures
        ({
            let t = s.put_folder(f);
            &&& forall|a: Seq<char>, b: Seq<char>| #[trigger]
                get(t.folders, a, b) != get(s.folders, a, b) ==> a == f.drive_id && present(
                    t.folder_log,
                    a,
                    b,
                )
            &&& forall|a: Seq<char>, b: Seq<char>|
                present(s.folder_log, a, b) ==> #[trigger] present(t.folder_log, a, b)
            &&& forall|a: Seq<char>, b: Seq<char>|
                a != f.drive_id ==> #[trigger] get(t.folder_log, a, b) == get(s.folder_log, a, b)
        }),
{
    lemma_put(s.folders, f);
    lemma_put(s.folder_log, created_folder()(f));
}

/// What the removal of an item does beyond the rows: see
/// [`lemma_apply_logs`].
proof fn lemma_remove_logs(s: StoreView, d: Seq<char>, id: Seq<char>)
    requires
        s.wf(),
    ensures
        ({
            let t = s.remove_item(d, id);
            &&& forall|a: Seq<char>, b: Seq<char>| #[trigger]
                get(t.folders, a, b) != get(s.folders, a, b) ==> a == d && present(
                    t.folder_log,
                    a,
                    b,
                )
            &&& forall|a: Seq<char>, b: Seq<char>| #[trigger]
                get(t.files, a, b) != get(s.files, a, b) ==> a == d && present(t.file_log, a, b)
            &&& forall|a: Seq<char>, b: Seq<char>|
                present(s.folder_log, a, b) ==> #[trigger] present(t.folder_log, a, b)
            &&& forall|a: Seq<char>, b: Seq<char>|
                present(s.file_log, a, b) ==> #[trigger] present(t.file_log, a, b)
            &&& forall|a: Seq<char>, b: Seq<char>|
                a != d ==> #[trigger] get(t.folder_log, a, b) == get(s.folder_log, a, b)
            &&& forall|a: Seq<char>, b: Seq<char>|
                a != d ==> #[trigger] get(t.file_log, a, b) == get(s.file_log, a, b)
        }),
{
    let t = s.remove_item(d, id);
    let gone = subtree(s.folders, d, id);
    let gone_files = files_below(s.folders, d, id);
    let went = s.folders.filter(gone);
    let went_files = s.files.filter(gone_files);
    lemma_filter_get(s.folders, spared(gone));
    lemma_filter_get(s.files, spared(gone_files));
    lemma_filter_rows(s.folders, gone);
    lemma_filter_rows(s.files, gone_files);
    lemma_log_all_keys(s.folder_log, went, deleted_folder());
    lemma_log_all_keys(s.file_log, went_files, deleted_file());
    assert forall|a: Seq<char>, b: Seq<char>| #[trigger]
        get(t.folders, a, b) != get(s.folders, a, b) implies a == d && present(
        t.folder_log,
        a,
        b,
    ) by {
        let row = get(s.folders, a, b).unwrap();
        lemma_get_some(s.folders, a, b);
        assert(gone(row));
        assert(went.contains(s.folders[index_of(s.folders, a, b)]));
        let j = choose|j: int| 0 <= j < went.len() && went[j] == row;
        assert(at_key(deleted_folder()(went[j]), a, b));
    }
    assert forall|a: Seq<char>, b: Seq<char>| #[trigger]
        get(t.files, a, b) != get(s.files, a, b) implies a == d && present(t.file_log, a, b) by {
        let row = get(s.files, a, b).unwrap();
        lemma_get_some(s.files, a, b);
        assert(gone_files(row));
        assert(went_files.contains(s.files[index_of(s.files, a, b)]));
        let j = choose|j: int| 0 <= j < went_files.len() && went_files[j] == row;
        assert(at_key(deleted_file()(went_files[j]), a, b));
    }
    assert forall|a: Seq<char>, b: Seq<char>| a != d implies #[trigger] get(t.folder_log, a, b)
        == get(s.folder_log, a, b) by {
        assert forall|j: int| 0 <= j < went.len() implies !at_key(
            deleted_folder()(#[trigger] went[j]),
            a,
            b,
        ) by {
            assert(gone(went[j]));
        }
    }
    assert forall|a: Seq<char>, b: Seq<char>| a != d implies #[trigger] get(t.file_log, a, b)
        == get(s.file_log, a, b) by {
        assert forall|j: int| 0 <= j < went_files.len() implies !at_key(
            deleted_file()(#[trigger] went_files[j]),
            a,
            b,
        ) by {
            assert(gone_files(went_files[j]));
        }
    }
}

/// The entry of the folder changelog under the key `(a, b)`, if there is
/// one, shows the folder as the replica holds it, or shows it as removed
/// where the replica holds no such folder.
pub open spec fn folder_entry_is_true(t: StoreView, a: Seq<char>, b: Seq<char>) -> bool {
    match get(t.folder_log, a, b) {
        Some(e) => e.folder.drive_id == a && e.folder.id == b && (if e.deleted {
            !present(t.folders, a, b)
        } else {
            get(t.folders, a, b) == Some(e.folder)
        }),
        None => true,
    }
}

/// The entry of the file changelog under the key `(a, b)`, if there is one,
/// shows the file as the replica holds it, or shows it as removed where
/// the replica holds no such file.
pub open spec fn file_entry_is_true(t: StoreView, a: Seq<char>, b: Seq<char>) -> bool {
    match get(t.file_log, a, b) {
        Some(e) => e.file.drive_id == a && e.file.id == b && (if e.deleted {
            !present(t.files, a, b)
        } else {
            get(t.files, a, b) == Some(e.file)
        }),
        None => true,
    }
}

/// The changelog accounts for a merge. After a merge of drive `d` that
/// succeeds, the cursor of the drive is the new one and no other drive row
/// has changed; every folder and every file that is not as it was before
/// the merge belongs to drive `d` and has an entry in the changelog; and
/// each entry shows the entity as the replica now holds it, or shows it
/// as removed where the replica holds it no longer. Rows and entries of
/// other drives are as they were.
pub proof fn lemma_merge_is_logged(s: StoreView, d: Seq<char>, cs: Seq<ChangeView>, token: Seq<char>)
    requires
        s.wf(),
        s.merge(d, cs, token) is Some,
    ensures
        ({
            let t = s.merge(d, cs, token).unwrap();
            &&& t.wf()
            &&& t.drives == s.set_token(d, token).drives
            &&& present(s.drives, d, d) ==> get(t.drives, d, d) == Some(
                DriveView { id: d, page_token: token },
            )
            &&& forall|a: Seq<char>, b: Seq<char>| #[trigger]
                get(t.folders, a, b) != get(s.folders, a, b) ==> a == d && present(
                    t.folder_log,
                    a,
                    b,
                )
            &&& forall|a: Seq<char>, b: Seq<char>| #[trigger]
                get(t.files, a, b) != get(s.files, a, b) ==> a == d && present(t.file_log, a, b)
            &&& forall|a: Seq<char>, b: Seq<char>|
                a != d ==> #[trigger] get(t.folder_log, a, b) == get(s.folder_log, a, b)
            &&& forall|a: Seq<char>, b: Seq<char>|
                a != d ==> #[trigger] get(t.file_log, a, b) == get(s.file_log, a, b)
            &&& forall|a: Seq<char>, b: Seq<char>| #[trigger] folder_entry_is_true(t, a, b)
            &&& forall|a: Seq<char>, b: Seq<char>| #[trigger] file_entry_is_true(t, a, b)
        }),
{
    let s1 = s.set_token(d, token);
    lemma_set_token_wf(s, d, token);
    lemma_put(s.drives, DriveView { id: d, page_token: token });
    lemma_apply_all_logs(s1, d, cs);
    let t = s.merge(d, cs, token).unwrap();
    crate::database::sound::lemma_apply_all_wf(s1, d, cs);
    assert forall|a: Seq<char>, b: Seq<char>| #[trigger] folder_entry_is_true(t, a, b) by {
        if present(t.folder_log, a, b) {
            lemma_get_some(t.folder_log, a, b);
            let k = index_of(t.folder_log, a, b);
            assert(crate::database::state::folder_entry_ok(t.folders, t.folder_log[k]));
        }
    }
    assert forall|a: Seq<char>, b: Seq<char>| #[trigger] file_entry_is_true(t, a, b) by {
        if present(t.file_log, a, b) {
            lemma_get_some(t.file_log, a, b);
            let k = index_of(t.file_log, a, b);
            assert(crate::database::state::file_entry_ok(t.files, t.file_log[k]));
        }
    }
}

/// What a list of changes does beyond the rows: see [`lemma_apply_logs`].
pub proof fn lemma_apply_all_logs(s: StoreView, d: Seq<char>, cs: Seq<ChangeView>)
    requires
        s.wf(),
        s.apply_all(d, cs) is Some,
    ensures
        ({
            let t = s.apply_all(d, cs).unwrap();
            &&& t.drives == s.drives
            &&& forall|a: Seq<char>, b: Seq<char>| #[trigger]
                get(t.folders, a, b) != get(s.folders, a, b) ==> a == d && present(
                    t.folder_log,
                    a,
                    b,
                )
            &&& forall|a: Seq<char>, b: Seq<char>| #[trigger]
                get(t.files, a, b) != get(s.files, a, b) ==> a == d && present(t.file_log, a, b)
            &&& forall|a: Seq<char>, b: Seq<char>|
                present(s.folder_log, a, b) ==> #[trigger] present(t.folder_log, a, b)
            &&& forall|a: Seq<char>, b: Seq<char>|
                present(s.file_log, a, b) ==> #[trigger] present(t.file_log, a, b)
            &&& forall|a: Seq<char>, b: Seq<char>|
                a != d ==> #[trigger] get(t.folder_log, a, b) == get(s.folder_log, a, b)
            &&& forall|a: Seq<char>, b: Seq<char>|
                a != d ==> #[trigger] get(t.file_log, a, b) == get(s.file_log, a, b)
        }),
    decreases cs.len(),
{
    if cs.len() > 0 {
        let next = s.apply(d, cs.first()).unwrap();
        let t = next.apply_all(d, cs.drop_first()).unwrap();
        lemma_apply_wf(s, d, cs.first());
        lemma_apply_logs(s, d, cs.first());
        lemma_apply_all_logs(next, d, cs.drop_first());
        assert forall|a: Seq<char>, b: Seq<char>| #[trigger]
            get(t.folders, a, b) != get(s.folders, a, b) implies a == d && present(
            t.folder_log,
            a,
            b,
        ) by {
            if get(next.folders, a, b) != get(s.folders, a, b) {
                assert(present(next.folder_log, a, b));
                assert(present(t.folder_log, a, b));
            } else {
                assert(get(t.folders, a, b) != get(next.folders, a, b));
            }
        }
        assert forall|a: Seq<char>, b: Seq<char>| #[trigger]
            get(t.files, a, b) != get(s.files, a, b) implies a == d && present(
            t.file_log,
            a,
            b,
        ) by {
            if get(next.files, a, b) != get(s.files, a, b) {
                assert(present(next.file_log, a, b));
                assert(present(t.file_log, a, b));
            } else {
                assert(get(t.files, a, b) != get(next.files, a, b));
            }
        }
        assert forall|a: Seq<char>, b: Seq<char>| present(s.folder_log, a, b) implies #[trigger] present(
            t.folder_log,
            a,
            b,
        ) by {
            assert(present(next.folder_log, a, b));
        }
        assert forall|a: Seq<char>, b: Seq<char>| present(s.file_log, a, b) implies #[trigger] present(
            t.file_log,
            a,
            b,
        ) by {
            assert(present(next.file_log, a, b));
        }
        assert forall|a: Seq<char>, b: Seq<char>| a != d implies #[trigger] get(t.folder_log, a, b)
            == get(s.folder_log, a, b) by {
            assert(get(next.folder_log, a, b) == get(s.folder_log, a, b));
        }
        assert forall|a: Seq<char>, b: Seq<char>| a != d implies #[trigger] get(t.file_log, a, b)
            == get(s.file_log, a, b) by {
            assert(get(next.file_log, a, b) == get(s.file_log, a, b));
        }
    }
}

/// A cleared changelog is empty: after the changelog of a drive was
/// cleared, the replica holds no entry of that drive, and the drive has no
/// changed path.
pub proof fn lemma_cleared_is_empty(s: StoreView, d: Seq<char>)
    ensures
        s.clear_changelog(d).folder_log.filter(in_drive(d)) == Seq::<ChangedFolderView>::empty(),
        s.clear_changelog(d).file_log.filter(in_drive(d)) == Seq::<ChangedFileView>::empty(),
        s.clear_changelog(d).changed_paths(d) == Seq::<crate::model::ChangedPathView>::empty(),
        s.clear_changelog(d).drives == s.drives,
        s.clear_changelog(d).folders == s.folders,
        s.clear_changelog(d).files == s.files,
{
    let t = s.clear_changelog(d);
    lemma_none_left(s.folder_log, d);
    lemma_none_left(s.file_log, d);
    assert(t.changed_paths(d) =~= Seq::<crate::model::ChangedPathView>::empty());
}

/// A table without the rows of a drive holds no row of that drive.
pub proof fn lemma_none_left<R: Row>(t: Seq<R>, d: Seq<char>)
    ensures
        without(t, in_drive(d)).filter(in_drive(d)) == Seq::<R>::empty(),
        without(without(t, in_drive(d)), in_drive(d)) == without(t, in_drive(d)),
{
    let rest = without(t, in_drive::<R>(d));
    lemma_filter_rows(t, spared(in_drive::<R>(d)));
    lemma_filter_rows(rest, in_drive::<R>(d));
    let mine = rest.filter(in_drive::<R>(d));
    if mine.len() > 0 {
        let x = mine[0];
        assert(in_drive::<R>(d)(x) && rest.contains(x));
        let j = choose|j: int| 0 <= j < rest.len() && rest[j] == x;
        assert(spared(in_drive::<R>(d))(rest[j]));
    }
    assert(mine =~= Seq::<R>::empty());
    lemma_filter_all(rest, spared(in_drive::<R>(d)));
}

/// A filter that every row passes keeps the table as it is.
pub proof fn lemma_filter_all<R>(t: Seq<R>, keep: spec_fn(R) -> bool)
    requires
        forall|k: int| 0 <= k < t.len() ==> keep(#[trigger] t[k]),
    ensures
        t.filter(keep) == t,
    decreases t.len(),
{
    reveal(Seq::filter);
    if t.len() > 0 {
        let t0 = t.drop_last();
        assert forall|k: int| 0 <= k < t0.len() implies keep(#[trigger] t0[k]) by {
            assert(t0[k] == t[k]);
        }
        lemma_filter_all(t0, keep);
        assert(keep(t[t.len() - 1]));
        assert(t0.push(t.last()) =~= t);
    }
}

/// Removing a drive twice is removing it once. So a drive that was removed
/// can be loaded anew: removal and first load together reset the drive.
pub proof fn lemma_remove_drive_idempotent(s: StoreView, d: Seq<char>)
    ensures
        s.remove_drive(d).remove_drive(d) == s.remove_drive(d),
{
    lemma_none_left(s.drives, d);
    lemma_none_left(s.folders, d);
    lemma_none_left(s.files, d);
    lemma_none_left(s.folder_log, d);
    lemma_none_left(s.file_log, d);
}

/// The names down to a folder of the table start with the name of the
/// root folder of its drive.
pub proof fn lemma_trail_starts_at_root(fs: Seq<FolderView>, f: FolderView, n: nat)
    requires
        unique(fs),
        fs.contains(f),
        climbs(fs, f, n),
    ensures
        names_to(fs, f).len() >= 1,
        get(fs, f.drive_id, f.drive_id) matches Some(root) && names_to(fs, f)[0] == root.name,
    decreases n,
{
    lemma_step(fs, f, n);
    match f.parent {
        None => {
            let j = choose|j: int| 0 <= j < fs.len() && fs[j] == f;
            lemma_get_at(fs, j);
        },
        Some(p) => {
            lemma_get_some(fs, f.drive_id, p);
            let g = get(fs, f.drive_id, p).unwrap();
            assert(fs[index_of(fs, f.drive_id, p)] == g);
            lemma_trail_starts_at_root(fs, g, (n - 1) as nat);
        },
    }
}

/// A joined path starts with its first name.
pub proof fn lemma_joined_starts(names: Seq<Seq<char>>, sep: Seq<char>)
    requires
        names.len() >= 1,
    ensures
        joined(names, sep).len() >= names[0].len(),
        joined(names, sep).subrange(0, names[0].len() as int) == names[0],
    decreases names.len(),
{
    if names.len() == 1 {
        assert(joined(names, sep).subrange(0, names[0].len() as int) =~= names[0]);
    } else {
        let rest = names.drop_last();
        lemma_joined_starts(rest, sep);
        assert(rest[0] == names[0]);
        let head = joined(rest, sep);
        assert(joined(names, sep) == head + sep + names.last());
        assert(joined(names, sep).subrange(0, names[0].len() as int) =~= head.subrange(
            0,
            names[0].len() as int,
        ));
    }
}

/// A renamed drive shows in every path. After the root folder of drive `d`
/// got the name `name`, the path of every folder and of every file of the
/// drive starts with that name.
pub proof fn lemma_rename_leads_every_path(s: StoreView, d: Seq<char>, name: Seq<char>)
    requires
        s.wf(),
        present(s.folders, d, d),
    ensures
        ({
            let t = s.rename_root(d, name);
            &&& t.wf()
            &&& get(t.folders, d, d) matches Some(root) && root.name == name
            &&& forall|k: int|
                0 <= k < t.folders.len() && (#[trigger] t.folders[k]).drive_id == d ==> {
                    let path = t.folder_path(t.folders[k]).inner.path;
                    path.len() >= name.len() && path.subrange(0, name.len() as int) == name
                }
            &&& forall|k: int|
                0 <= k < t.files.len() && (#[trigger] t.files[k]).drive_id == d ==> {
                    let path = t.file_path(t.files[k]).inner.path;
                    path.len() >= name.len() && path.subrange(0, name.len() as int) == name
                }
        }),
{
    let t = s.rename_root(d, name);
    lemma_rename_root_wf(s, d, name);
    let old_root = get(s.folders, d, d).unwrap();
    lemma_put(s.folders, FolderView { name, ..old_root });
    lemma_get_some(s.folders, d, d);
    assert forall|k: int|
        0 <= k < t.folders.len() && (#[trigger] t.folders[k]).drive_id == d implies {
        let path = t.folder_path(t.folders[k]).inner.path;
        path.len() >= name.len() && path.subrange(0, name.len() as int) == name
    } by {
        let f = t.folders[k];
        lemma_live_trail(t, f, k);
        let names = t.trail_to(f.drive_id, f.parent, f.name);
        lemma_joined_starts(names, seq!['/']);
    }
    assert forall|k: int| 0 <= k < t.files.len() && (#[trigger] t.files[k]).drive_id == d implies {
        let path = t.file_path(t.files[k]).inner.path;
        path.len() >= name.len() && path.subrange(0, name.len() as int) == name
    } by {
        let y = t.files[k];
        assert(present(t.folders, t.files[k].drive_id, t.files[k].parent));
        lemma_get_some(t.folders, d, y.parent);
        let j = index_of(t.folders, d, y.parent);
        let g = t.folders[j];
        assert(rooted(t.folders, t.folders[j]));
        lemma_trail_starts_at_root(t.folders, g, height(t.folders, g));
        let names = t.trail_to(d, Some(y.parent), y.name);
        assert(names == names_to(t.folders, g).push(y.name));
        lemma_joined_starts(names, seq!['/']);
    }
}

/// The names down to a folder that exists are those from the root of its
/// drive: its path is the path in the tree as it is.
pub proof fn lemma_live_trail(t: StoreView, f: FolderView, k: int)
    requires
        t.wf(),
        0 <= k < t.folders.len(),
        t.folders[k] == f,
    ensures
        t.trail_to(f.drive_id, f.parent, f.name) == names_to(t.folders, f),
        names_to(t.folders, f).len() >= 1,
        get(t.folders, f.drive_id, f.drive_id) matches Some(root) && names_to(t.folders, f)[0]
            == root.name,
{
    assert(rooted(t.folders, t.folders[k]));
    let n = height(t.folders, f);
    lemma_step(t.folders, f, n);
    lemma_trail_starts_at_root(t.folders, f, n);
}

/// The names down to a folder that can be traced start at the top of the
/// drive: with the name of the root folder, as it exists or as it was last
/// known.
pub proof fn lemma_lost_trail_starts_at_top(s: StoreView, d: Seq<char>, pid: Seq<char>, n: nat)
    requires
        s.wf(),
        s.resolves(d, pid, n),
    ensures
        s.lost_trail(d, pid, n).len() >= 1,
        s.lost_trail(d, pid, n)[0] == s.top_name(d),
    decreases n,
{
    if present(s.folders, d, pid) {
        lemma_get_some(s.folders, d, pid);
        let k = index_of(s.folders, d, pid);
        assert(rooted(s.folders, s.folders[k]));
        lemma_trail_starts_at_root(s.folders, s.folders[k], height(s.folders, s.folders[k]));
    } else {
        lemma_get_some(s.folder_log, d, pid);
        let j = index_of(s.folder_log, d, pid);
        let e = s.folder_log[j];
        assert(s.folder_entry_traced(s.folder_log[j]));
        match e.folder.parent {
            Some(above) => {
                lemma_lost_trail_starts_at_top(s, d, above, (n - 1) as nat);
            },
            None => {},
        }
    }
}

/// Every changed path is whole. The path of every entity that the
/// changelog shows, existing or removed, leads from the top of its drive
/// down to the entity: it starts with the name of the root folder, as it
/// exists or as it was last known, and it ends with the name of the entity.
/// No path stops short at a folder that the replica has lost.
pub proof fn lemma_changed_paths_are_whole(s: StoreView)
    requires
        s.wf(),
    ensures
        forall|k: int|
            0 <= k < s.folder_log.len() ==> {
                let f = (#[trigger] s.folder_log[k]).folder;
                let names = s.trail_to(f.drive_id, f.parent, f.name);
                let path = s.folder_path(f).inner.path;
                &&& names.len() >= 1
                &&& names[0] == s.top_name(f.drive_id)
                &&& names.last() == f.name
                &&& path.len() >= names[0].len()
                &&& path.subrange(0, names[0].len() as int) == names[0]
            },
        forall|k: int|
            0 <= k < s.file_log.len() ==> {
                let y = (#[trigger] s.file_log[k]).file;
                let names = s.trail_to(y.drive_id, Some(y.parent), y.name);
                let path = s.file_path(y).inner.path;
                &&& names.len() >= 2
                &&& names[0] == s.top_name(y.drive_id)
                &&& names.last() == y.name
                &&& path.len() >= names[0].len()
                &&& path.subrange(0, names[0].len() as int) == names[0]
            },
{
    assert forall|k: int| 0 <= k < s.folder_log.len() implies {
        let f = (#[trigger] s.folder_log[k]).folder;
        let names = s.trail_to(f.drive_id, f.parent, f.name);
        let path = s.folder_path(f).inner.path;
        &&& names.len() >= 1
        &&& names[0] == s.top_name(f.drive_id)
        &&& names.last() == f.name
        &&& path.len() >= names[0].len()
        &&& path.subrange(0, names[0].len() as int) == names[0]
    } by {
        let e = s.folder_log[k];
        let f = e.folder;
        assert(s.folder_entry_traced(s.folder_log[k]));
        assert(crate::database::state::folder_entry_ok(s.folders, s.folder_log[k]));
        lemma_get_at(s.folder_log, k);
        match f.parent {
            Some(p) => {
                let n = s.hops_to(f.drive_id, p);
                lemma_lost_trail_starts_at_top(s, f.drive_id, p, n);
            },
            None => {
                if e.deleted {
                } else {
                    lemma_get_some(s.folders, f.drive_id, f.id);
                }
            },
        }
        lemma_joined_starts(s.trail_to(f.drive_id, f.parent, f.name), seq!['/']);
    }
    assert forall|k: int| 0 <= k < s.file_log.len() implies {
        let y = (#[trigger] s.file_log[k]).file;
        let names = s.trail_to(y.drive_id, Some(y.parent), y.name);
        let path = s.file_path(y).inner.path;
        &&& names.len() >= 2
        &&& names[0] == s.top_name(y.drive_id)
        &&& names.last() == y.name
        &&& path.len() >= names[0].len()
        &&& path.subrange(0, names[0].len() as int) == names[0]
    } by {
        let y = s.file_log[k].file;
        assert(s.file_entry_traced(s.file_log[k]));
        let n = s.hops_to(y.drive_id, y.parent);
        lemma_lost_trail_starts_at_top(s, y.drive_id, y.parent, n);
        lemma_joined_starts(s.trail_to(y.drive_id, Some(y.parent), y.name), seq!['/']);
    }
}

/// A path does not depend on how far one is ready to look. The names on
/// the way to the top are the same for every number of removed folders
/// that suffices to trace the folder.
pub proof fn lemma_trail_is_determined(s: StoreView, d: Seq<char>, pid: Seq<char>, n: nat, m: nat)
    requires
        s.resolves(d, pid, n),
        s.resolves(d, pid, m),
    ensures
        s.lost_trail(d, pid, n) == s.lost_trail(d, pid, m),
    decreases n,
{
    if !present(s.folders, d, pid) {
        match get(s.folder_log, d, pid) {
            Some(e) => match e.folder.parent {
                Some(above) => {
                    lemma_trail_is_determined(s, d, above, (n - 1) as nat, (m - 1) as nat);
                },
                None => {},
            },
            None => {},
        }
    }
}

} // verus!
