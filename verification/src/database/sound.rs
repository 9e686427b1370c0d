//! Every operation of the merge engine keeps the replica well formed.

use vstd::prelude::*;
use crate::fetch::{ChangeView, ItemView};
use crate::model::{ChangedFileView, ChangedFolderView, DriveView, FileView, FolderView};
use crate::database::state::{
    created_file,
    created_folder,
    deleted_file,
    deleted_folder,
    file_entry_ok,
    files_below,
    folder_entry_ok,
    lemma_log_all,
    StoreView,
};
use crate::database::tables::{
    at_key,
    get,
    in_drive,
    index_of,
    lemma_filter_get,
    lemma_filter_rows,
    lemma_get_at,
    lemma_get_some,
    lemma_put,
    present,
    put,
    spared,
    unique,
    Row,
};
use crate::database::trace::{
    leads_on,
    lemma_entries_kept,
    lemma_file_entry_kept,
    lemma_folder_entry_kept,
    lemma_live_resolves,
    lemma_resolves_after_remove,
};
use crate::database::tree::{
    lemma_step,
    lemma_drive_whole,
    lemma_put_tree,
    lemma_subtree_whole,
    lemma_under_step,
    lemma_without_tree,
    rooted,
    subtree,
    tree_ok,
    under,
};

verus! {

/// Setting a cursor keeps the replica well formed.
pub proof fn lemma_set_token_wf(s: StoreView, d: Seq<char>, token: Seq<char>)
    requires
        s.wf(),
    ensures
        s.set_token(d, token).wf(),
        forall|a: Seq<char>, b: Seq<char>|
            present(s.set_token(d, token).drives, a, b) <==> present(s.drives, a, b),
{
    let row = DriveView { id: d, page_token: token };
    lemma_put(s.drives, row);
    let t = s.set_token(d, token);
    assert forall|a: Seq<char>, b: Seq<char>| present(t.drives, a, b) <==> present(
        s.drives,
        a,
        b,
    ) by {
        if present(s.drives, d, d) {
            assert(present(put(s.drives, row), a, b) <==> (at_key(row, a, b) || present(
                s.drives,
                a,
                b,
            )));
        }
    }
    assert forall|k: int| 0 <= k < t.folders.len() implies present(
        t.drives,
        (#[trigger] t.folders[k]).drive_id,
        t.folders[k].drive_id,
    ) by {
        assert(present(s.drives, s.folders[k].drive_id, s.folders[k].drive_id));
    }
    assert forall|d0: Seq<char>| leads_on(s, t, d0) by {}
    lemma_entries_kept(s, t);
    assert forall|k: int| 0 <= k < t.folder_log.len() implies t.folder_entry_traced(
        #[trigger] t.folder_log[k],
    ) by {
        assert(s.folder_entry_traced(s.folder_log[k]));
    }
    assert forall|k: int| 0 <= k < t.file_log.len() implies t.file_entry_traced(
        #[trigger] t.file_log[k],
    ) by {
        assert(s.file_entry_traced(s.file_log[k]));
    }
}

/// An upsert of a folder that may be made keeps the replica well formed.
pub proof fn lemma_put_folder_wf(s: StoreView, f: FolderView)
    requires
        s.wf(),
        s.can_put_folder(f),
    ensures
        s.put_folder(f).wf(),
{
    let t = s.put_folder(f);
    let e = created_folder()(f);
    lemma_put(s.folders, f);
    lemma_put(s.folder_log, e);
    lemma_put_tree(s.folders, f);
    assert forall|k: int| 0 <= k < t.folders.len() implies present(
        t.drives,
        (#[trigger] t.folders[k]).drive_id,
        t.folders[k].drive_id,
    ) by {
        let g = t.folders[k];
        if g != f {
            let j = choose|j: int| 0 <= j < s.folders.len() && s.folders[j] == g;
            assert(present(s.drives, s.folders[j].drive_id, s.folders[j].drive_id));
        }
    }
    assert forall|k: int| 0 <= k < t.files.len() implies present(
        t.folders,
        (#[trigger] t.files[k]).drive_id,
        t.files[k].parent,
    ) by {
        assert(present(s.folders, s.files[k].drive_id, s.files[k].parent));
    }
    assert forall|k: int| 0 <= k < t.folder_log.len() implies folder_entry_ok(
        t.folders,
        #[trigger] t.folder_log[k],
    ) by {
        let x = t.folder_log[k];
        if x != e {
            let j = choose|j: int| 0 <= j < s.folder_log.len() && s.folder_log[j] == x;
            assert(folder_entry_ok(s.folders, s.folder_log[j]));
            assert(!at_key(f, x.folder.drive_id, x.folder.id));
        }
    }
    assert forall|d0: Seq<char>| leads_on(s, t, d0) by {
        assert forall|id: Seq<char>| #[trigger]
            present(t.folders, d0, id) || (!present(s.folders, d0, id) && get(
                t.folder_log,
                d0,
                id,
            ) == get(s.folder_log, d0, id)) by {
            if !at_key(f, d0, id) {
                assert(!at_key(e, d0, id));
            }
        }
    }
    lemma_entries_kept(s, t);
    assert(t.folder_entry_traced(e)) by {
        match f.parent {
            Some(p) => {
                lemma_get_some(s.folders, f.drive_id, p);
                lemma_under_step(s.folders, get(s.folders, f.drive_id, p).unwrap(), f.id);
                assert(present(t.folders, f.drive_id, p));
                assert(t.resolves(f.drive_id, p, 0));
            },
            None => {},
        }
    }
    assert forall|k: int| 0 <= k < t.folder_log.len() implies t.folder_entry_traced(
        #[trigger] t.folder_log[k],
    ) by {
        let x = t.folder_log[k];
        if x != e {
            let j = choose|j: int| 0 <= j < s.folder_log.len() && s.folder_log[j] == x;
            assert(s.folder_entry_traced(s.folder_log[j]));
        }
    }
    assert forall|k: int| 0 <= k < t.file_log.len() implies t.file_entry_traced(
        #[trigger] t.file_log[k],
    ) by {
        assert(s.file_entry_traced(s.file_log[k]));
    }
}

/// An upsert of a file that may be made keeps the replica well formed.
pub proof fn lemma_put_file_wf(s: StoreView, y: FileView)
    requires
        s.wf(),
        s.can_put_file(y),
    ensures
        s.put_file(y).wf(),
{
    let t = s.put_file(y);
    let e = created_file()(y);
    lemma_put(s.files, y);
    lemma_put(s.file_log, e);
    assert forall|k: int| 0 <= k < t.files.len() implies present(
        t.folders,
        (#[trigger] t.files[k]).drive_id,
        t.files[k].parent,
    ) by {
        let g = t.files[k];
        if g != y {
            let j = choose|j: int| 0 <= j < s.files.len() && s.files[j] == g;
            assert(present(s.folders, s.files[j].drive_id, s.files[j].parent));
        }
    }
    assert forall|k: int| 0 <= k < t.file_log.len() implies file_entry_ok(
        t.files,
        #[trigger] t.file_log[k],
    ) by {
        let x = t.file_log[k];
        if x != e {
            let j = choose|j: int| 0 <= j < s.file_log.len() && s.file_log[j] == x;
            assert(file_entry_ok(s.files, s.file_log[j]));
            assert(!at_key(y, x.file.drive_id, x.file.id));
        }
    }
    assert forall|d0: Seq<char>| leads_on(s, t, d0) by {}
    lemma_entries_kept(s, t);
    assert(t.file_entry_traced(e)) by {
        assert(t.resolves(y.drive_id, y.parent, 0));
    }
    assert forall|k: int| 0 <= k < t.folder_log.len() implies t.folder_entry_traced(
        #[trigger] t.folder_log[k],
    ) by {
        assert(s.folder_entry_traced(s.folder_log[k]));
    }
    assert forall|k: int| 0 <= k < t.file_log.len() implies t.file_entry_traced(
        #[trigger] t.file_log[k],
    ) by {
        let x = t.file_log[k];
        if x != e {
            let j = choose|j: int| 0 <= j < s.file_log.len() && s.file_log[j] == x;
            assert(s.file_entry_traced(s.file_log[j]));
        }
    }
}

/// The root folder of a drive may always be renamed.
pub proof fn lemma_rename_root_wf(s: StoreView, d: Seq<char>, name: Seq<char>)
    requires
        s.wf(),
    ensures
        s.rename_root(d, name).wf(),
        get(s.folders, d, d) matches Some(root) ==> s.can_put_folder(
            FolderView { name, ..root },
        ) && root.parent is None,
{
    match get(s.folders, d, d) {
        Some(root) => {
            lemma_get_some(s.folders, d, d);
            let k = index_of(s.folders, d, d);
            assert(rooted(s.folders, s.folders[k]));
            assert(present(s.drives, s.folders[k].drive_id, s.folders[k].drive_id));
            // a folder with the drive's id that had a parent would lie below itself
            lemma_root_has_no_parent(s.folders, root, crate::database::tree::height(s.folders, root));
            lemma_put_folder_wf(s, FolderView { name, ..root });
        },
        None => {},
    }
}

/// A folder with the id of its drive has no parent: the chain of parents
/// of a folder never meets the folder again.
pub proof fn lemma_root_has_no_parent(fs: Seq<FolderView>, f: FolderView, n: nat)
    requires
        unique(fs),
        tree_ok(fs),
        fs.contains(f),
        f.id == f.drive_id,
        crate::database::tree::climbs(fs, f, n),
    ensures
        f.parent is None,
{
    if f.parent is Some {
        lemma_top_is_root(fs, f, n);
        let top = get(fs, f.drive_id, f.drive_id).unwrap();
        let j = choose|j: int| 0 <= j < fs.len() && fs[j] == f;
        lemma_get_at(fs, j);
        assert(top == f);
    }
}

/// The chain of parents of a folder ends at the folder of the table that
/// has the drive's id, and that folder has no parent.
pub proof fn lemma_top_is_root(fs: Seq<FolderView>, f: FolderView, n: nat)
    requires
        unique(fs),
        fs.contains(f),
        crate::database::tree::climbs(fs, f, n),
    ensures
        get(fs, f.drive_id, f.drive_id) matches Some(top) && top.parent is None,
    decreases n,
{
    match f.parent {
        None => {
            let j = choose|j: int| 0 <= j < fs.len() && fs[j] == f;
            lemma_get_at(fs, j);
        },
        Some(p) => {
            lemma_get_some(fs, f.drive_id, p);
            let g = get(fs, f.drive_id, p).unwrap();
            assert(fs[index_of(fs, f.drive_id, p)] == g);
            lemma_top_is_root(fs, g, (n - 1) as nat);
        },
    }
}

/// Removing an item keeps the replica well formed.
pub proof fn lemma_remove_item_wf(s: StoreView, d: Seq<char>, id: Seq<char>)
    requires
        s.wf(),
    ensures
        s.remove_item(d, id).wf(),
{
    let t = s.remove_item(d, id);
    let gone = subtree(s.folders, d, id);
    let gone_files = files_below(s.folders, d, id);
    lemma_subtree_whole(s.folders, d, id);
    lemma_without_tree(s.folders, gone);
    lemma_filter_get(s.folders, spared(gone));
    lemma_filter_rows(s.folders, spared(gone));
    lemma_filter_get(s.files, spared(gone_files));
    lemma_filter_rows(s.files, spared(gone_files));
    lemma_filter_rows(s.folders, gone);
    lemma_filter_rows(s.files, gone_files);
    lemma_log_all(s.folder_log, s.folders.filter(gone), deleted_folder());
    lemma_log_all(s.file_log, s.files.filter(gone_files), deleted_file());
    assert forall|k: int| 0 <= k < t.folders.len() implies present(
        t.drives,
        (#[trigger] t.folders[k]).drive_id,
        t.folders[k].drive_id,
    ) by {
        let g = t.folders[k];
        assert(s.folders.contains(g));
        let j = choose|j: int| 0 <= j < s.folders.len() && s.folders[j] == g;
        assert(present(s.drives, s.folders[j].drive_id, s.folders[j].drive_id));
    }
    assert forall|k: int| 0 <= k < t.files.len() implies present(
        t.folders,
        (#[trigger] t.files[k]).drive_id,
        t.files[k].parent,
    ) by {
        let y = t.files[k];
        assert(s.files.contains(y));
        let j = choose|j: int| 0 <= j < s.files.len() && s.files[j] == y;
        assert(present(s.folders, s.files[j].drive_id, s.files[j].parent));
        lemma_get_some(s.folders, y.drive_id, y.parent);
        assert(spared(gone_files)(y));
    }
    assert forall|k: int| 0 <= k < t.folder_log.len() implies folder_entry_ok(
        t.folders,
        #[trigger] t.folder_log[k],
    ) by {
        let e = t.folder_log[k];
        let rows = s.folders.filter(gone);
        if exists|j: int| 0 <= j < rows.len() && e == deleted_folder()(rows[j]) {
            let j = choose|j: int| 0 <= j < rows.len() && e == deleted_folder()(rows[j]);
            let row = rows[j];
            assert(gone(row) && s.folders.contains(row));
            let i = choose|i: int| 0 <= i < s.folders.len() && s.folders[i] == row;
            lemma_get_at(s.folders, i);
        } else {
            assert(s.folder_log.contains(e));
            let i = choose|i: int| 0 <= i < s.folder_log.len() && s.folder_log[i] == e;
            assert(folder_entry_ok(s.folders, s.folder_log[i]));
            if !e.deleted {
                let row = e.folder;
                lemma_get_some(s.folders, row.drive_id, row.id);
                let m = index_of(s.folders, row.drive_id, row.id);
                if gone(row) {
                    assert(rows.contains(s.folders[m]));
                    let j = choose|j: int| 0 <= j < rows.len() && rows[j] == row;
                    assert(at_key(
                        e,
                        deleted_folder()(rows[j]).drive(),
                        deleted_folder()(rows[j]).ident(),
                    ));
                }
            }
        }
    }
    assert forall|k: int| 0 <= k < t.file_log.len() implies file_entry_ok(
        t.files,
        #[trigger] t.file_log[k],
    ) by {
        let e = t.file_log[k];
        let rows = s.files.filter(gone_files);
        if exists|j: int| 0 <= j < rows.len() && e == deleted_file()(rows[j]) {
            let j = choose|j: int| 0 <= j < rows.len() && e == deleted_file()(rows[j]);
            let row = rows[j];
            assert(gone_files(row) && s.files.contains(row));
            let i = choose|i: int| 0 <= i < s.files.len() && s.files[i] == row;
            lemma_get_at(s.files, i);
        } else {
            assert(s.file_log.contains(e));
            let i = choose|i: int| 0 <= i < s.file_log.len() && s.file_log[i] == e;
            assert(file_entry_ok(s.files, s.file_log[i]));
            if !e.deleted {
                let row = e.file;
                lemma_get_some(s.files, row.drive_id, row.id);
                let m = index_of(s.files, row.drive_id, row.id);
                if gone_files(row) {
                    assert(rows.contains(s.files[m]));
                    let j = choose|j: int| 0 <= j < rows.len() && rows[j] == row;
                    assert(at_key(
                        e,
                        deleted_file()(rows[j]).drive(),
                        deleted_file()(rows[j]).ident(),
                    ));
                }
            }
        }
    }
    assert forall|k: int| 0 <= k < t.folder_log.len() implies t.folder_entry_traced(
        #[trigger] t.folder_log[k],
    ) by {
        let e = t.folder_log[k];
        let rows = s.folders.filter(gone);
        if exists|j: int| 0 <= j < rows.len() && e == deleted_folder()(rows[j]) {
            let j = choose|j: int| 0 <= j < rows.len() && e == deleted_folder()(rows[j]);
            let row = rows[j];
            assert(s.folders.contains(row));
            let i = choose|i: int| 0 <= i < s.folders.len() && s.folders[i] == row;
            assert(rooted(s.folders, s.folders[i]));
            lemma_step(s.folders, row, crate::database::tree::height(s.folders, row));
            match row.parent {
                Some(p) => {
                    lemma_get_some(s.folders, row.drive_id, p);
                    let m = index_of(s.folders, row.drive_id, p);
                    assert(rooted(s.folders, s.folders[m]));
                    lemma_live_resolves(
                        s,
                        d,
                        id,
                        m,
                        crate::database::tree::height(s.folders, s.folders[m]),
                    );
                },
                None => {},
            }
        } else {
            assert(s.folder_log.contains(e));
            let i = choose|i: int| 0 <= i < s.folder_log.len() && s.folder_log[i] == e;
            assert(s.folder_entry_traced(s.folder_log[i]));
            match e.folder.parent {
                Some(p) => {
                    let n = choose|n: nat| s.resolves(e.folder.drive_id, p, n);
                    lemma_resolves_after_remove(s, d, id, e.folder.drive_id, p, n);
                },
                None => {},
            }
        }
    }
    assert forall|k: int| 0 <= k < t.file_log.len() implies t.file_entry_traced(
        #[trigger] t.file_log[k],
    ) by {
        let e = t.file_log[k];
        let rows = s.files.filter(gone_files);
        if exists|j: int| 0 <= j < rows.len() && e == deleted_file()(rows[j]) {
            let j = choose|j: int| 0 <= j < rows.len() && e == deleted_file()(rows[j]);
            let row = rows[j];
            assert(s.files.contains(row));
            let i = choose|i: int| 0 <= i < s.files.len() && s.files[i] == row;
            assert(present(s.folders, s.files[i].drive_id, s.files[i].parent));
            lemma_get_some(s.folders, row.drive_id, row.parent);
            let m = index_of(s.folders, row.drive_id, row.parent);
            assert(rooted(s.folders, s.folders[m]));
            lemma_live_resolves(
                s,
                d,
                id,
                m,
                crate::database::tree::height(s.folders, s.folders[m]),
            );
        } else {
            assert(s.file_log.contains(e));
            let i = choose|i: int| 0 <= i < s.file_log.len() && s.file_log[i] == e;
            assert(s.file_entry_traced(s.file_log[i]));
            let n = choose|n: nat| s.resolves(e.file.drive_id, e.file.parent, n);
            lemma_resolves_after_remove(s, d, id, e.file.drive_id, e.file.parent, n);
        }
    }
}

/// A change that can be applied keeps the replica well formed.
pub proof fn lemma_apply_wf(s: StoreView, d: Seq<char>, c: ChangeView)
    requires
        s.wf(),
    ensures
        s.apply(d, c) matches Some(t) ==> t.wf(),
{
    match StoreView::seen_from(d, c) {
        ChangeView::DriveChanged(drive) => {
            lemma_rename_root_wf(s, d, drive.name);
        },
        ChangeView::DriveRemoved(_) => {},
        ChangeView::ItemChanged(ItemView::Folder(f)) => {
            if s.can_put_folder(f) {
                lemma_put_folder_wf(s, f);
            }
        },
        ChangeView::ItemChanged(ItemView::File(y)) => {
            if s.can_put_file(y) {
                lemma_put_file_wf(s, y);
            }
        },
        ChangeView::ItemRemoved(id) => {
            lemma_remove_item_wf(s, d, id);
        },
    }
}

/// A list of changes that can be applied keeps the replica well formed.
pub proof fn lemma_apply_all_wf(s: StoreView, d: Seq<char>, cs: Seq<ChangeView>)
    requires
        s.wf(),
    ensures
        s.apply_all(d, cs) matches Some(t) ==> t.wf(),
    decreases cs.len(),
{
    if cs.len() > 0 {
        lemma_apply_wf(s, d, cs.first());
        match s.apply(d, cs.first()) {
            Some(next) => {
                lemma_apply_all_wf(next, d, cs.drop_first());
            },
            None => {},
        }
    }
}

/// The tree invariant survives every merge: where the replica is well
/// formed before, it is well formed after a merge that succeeds, so every
/// folder still is the root of its drive or has its parent in the drive,
/// and no chain of parents runs in a circle.
pub proof fn lemma_merge_wf(s: StoreView, d: Seq<char>, cs: Seq<ChangeView>, token: Seq<char>)
    requires
        s.wf(),
    ensures
        s.merge(d, cs, token) matches Some(t) ==> t.wf() && tree_ok(t.folders),
{
    lemma_set_token_wf(s, d, token);
    lemma_apply_all_wf(s.set_token(d, token), d, cs);
}

/// Clearing a changelog keeps the replica well formed.
pub proof fn lemma_clear_changelog_wf(s: StoreView, d: Seq<char>)
    requires
        s.wf(),
    ensures
        s.clear_changelog(d).wf(),
{
    let t = s.clear_changelog(d);
    lemma_filter_get(s.folder_log, spared(in_drive::<ChangedFolderView>(d)));
    lemma_filter_rows(s.folder_log, spared(in_drive::<ChangedFolderView>(d)));
    lemma_filter_get(s.file_log, spared(in_drive::<ChangedFileView>(d)));
    lemma_filter_rows(s.file_log, spared(in_drive::<ChangedFileView>(d)));
    assert forall|k: int| 0 <= k < t.folder_log.len() implies folder_entry_ok(
        t.folders,
        #[trigger] t.folder_log[k],
    ) by {
        let e = t.folder_log[k];
        assert(s.folder_log.contains(e));
        let i = choose|i: int| 0 <= i < s.folder_log.len() && s.folder_log[i] == e;
        assert(folder_entry_ok(s.folders, s.folder_log[i]));
    }
    assert forall|k: int| 0 <= k < t.file_log.len() implies file_entry_ok(
        t.files,
        #[trigger] t.file_log[k],
    ) by {
        let e = t.file_log[k];
        assert(s.file_log.contains(e));
        let i = choose|i: int| 0 <= i < s.file_log.len() && s.file_log[i] == e;
        assert(file_entry_ok(s.files, s.file_log[i]));
    }
    assert forall|d0: Seq<char>| d0 != d implies leads_on(s, t, d0) by {
        assert forall|id: Seq<char>| #[trigger]
            present(t.folders, d0, id) || (!present(s.folders, d0, id) && get(
                t.folder_log,
                d0,
                id,
            ) == get(s.folder_log, d0, id)) by {
            if present(s.folder_log, d0, id) {
                lemma_get_some(s.folder_log, d0, id);
            }
        }
    }
    assert forall|k: int| 0 <= k < t.folder_log.len() implies t.folder_entry_traced(
        #[trigger] t.folder_log[k],
    ) by {
        let e = t.folder_log[k];
        assert(s.folder_log.contains(e));
        let i = choose|i: int| 0 <= i < s.folder_log.len() && s.folder_log[i] == e;
        assert(s.folder_entry_traced(s.folder_log[i]));
        assert(spared(in_drive::<ChangedFolderView>(d))(e));
        lemma_folder_entry_kept(s, t, e);
    }
    assert forall|k: int| 0 <= k < t.file_log.len() implies t.file_entry_traced(
        #[trigger] t.file_log[k],
    ) by {
        let e = t.file_log[k];
        assert(s.file_log.contains(e));
        let i = choose|i: int| 0 <= i < s.file_log.len() && s.file_log[i] == e;
        assert(s.file_entry_traced(s.file_log[i]));
        assert(spared(in_drive::<ChangedFileView>(d))(e));
        lemma_file_entry_kept(s, t, e);
    }
}

/// Removing a drive keeps the replica well formed.
pub proof fn lemma_remove_drive_wf(s: StoreView, d: Seq<char>)
    requires
        s.wf(),
    ensures
        s.remove_drive(d).wf(),
{
    let t = s.remove_drive(d);
    let gone = in_drive::<FolderView>(d);
    lemma_drive_whole(s.folders, d);
    lemma_without_tree(s.folders, gone);
    lemma_filter_get(s.drives, spared(in_drive::<DriveView>(d)));
    lemma_filter_rows(s.drives, spared(in_drive::<DriveView>(d)));
    lemma_filter_get(s.folders, spared(gone));
    lemma_filter_rows(s.folders, spared(gone));
    lemma_filter_get(s.files, spared(in_drive::<FileView>(d)));
    lemma_filter_rows(s.files, spared(in_drive::<FileView>(d)));
    lemma_filter_get(s.folder_log, spared(in_drive::<ChangedFolderView>(d)));
    lemma_filter_rows(s.folder_log, spared(in_drive::<ChangedFolderView>(d)));
    lemma_filter_get(s.file_log, spared(in_drive::<ChangedFileView>(d)));
    lemma_filter_rows(s.file_log, spared(in_drive::<ChangedFileView>(d)));
    assert forall|k: int| 0 <= k < t.folders.len() implies present(
        t.drives,
        (#[trigger] t.folders[k]).drive_id,
        t.folders[k].drive_id,
    ) by {
        let g = t.folders[k];
        assert(s.folders.contains(g));
        let j = choose|j: int| 0 <= j < s.folders.len() && s.folders[j] == g;
        assert(present(s.drives, s.folders[j].drive_id, s.folders[j].drive_id));
        lemma_get_some(s.drives, g.drive_id, g.drive_id);
    }
    assert forall|k: int| 0 <= k < t.files.len() implies present(
        t.folders,
        (#[trigger] t.files[k]).drive_id,
        t.files[k].parent,
    ) by {
        let y = t.files[k];
        assert(s.files.contains(y));
        let j = choose|j: int| 0 <= j < s.files.len() && s.files[j] == y;
        assert(present(s.folders, s.files[j].drive_id, s.files[j].parent));
        lemma_get_some(s.folders, y.drive_id, y.parent);
    }
    assert forall|k: int| 0 <= k < t.folder_log.len() implies folder_entry_ok(
        t.folders,
        #[trigger] t.folder_log[k],
    ) by {
        let e = t.folder_log[k];
        assert(s.folder_log.contains(e));
        let i = choose|i: int| 0 <= i < s.folder_log.len() && s.folder_log[i] == e;
        assert(folder_entry_ok(s.folders, s.folder_log[i]));
        if !e.deleted {
            lemma_get_some(s.folders, e.folder.drive_id, e.folder.id);
        }
    }
    assert forall|k: int| 0 <= k < t.file_log.len() implies file_entry_ok(
        t.files,
        #[trigger] t.file_log[k],
    ) by {
        let e = t.file_log[k];
        assert(s.file_log.contains(e));
        let i = choose|i: int| 0 <= i < s.file_log.len() && s.file_log[i] == e;
        assert(file_entry_ok(s.files, s.file_log[i]));
        if !e.deleted {
            lemma_get_some(s.files, e.file.drive_id, e.file.id);
        }
    }
    assert forall|d0: Seq<char>| d0 != d implies leads_on(s, t, d0) by {
        assert forall|id: Seq<char>| #[trigger]
            present(t.folders, d0, id) || (!present(s.folders, d0, id) && get(
                t.folder_log,
                d0,
                id,
            ) == get(s.folder_log, d0, id)) by {
            if present(s.folder_log, d0, id) {
                lemma_get_some(s.folder_log, d0, id);
            }
            if present(s.folders, d0, id) {
                lemma_get_some(s.folders, d0, id);
            }
        }
    }
    assert forall|k: int| 0 <= k < t.folder_log.len() implies t.folder_entry_traced(
        #[trigger] t.folder_log[k],
    ) by {
        let e = t.folder_log[k];
        assert(s.folder_log.contains(e));
        let i = choose|i: int| 0 <= i < s.folder_log.len() && s.folder_log[i] == e;
        assert(s.folder_entry_traced(s.folder_log[i]));
        assert(spared(in_drive::<ChangedFolderView>(d))(e));
        lemma_folder_entry_kept(s, t, e);
    }
    assert forall|k: int| 0 <= k < t.file_log.len() implies t.file_entry_traced(
        #[trigger] t.file_log[k],
    ) by {
        let e = t.file_log[k];
        assert(s.file_log.contains(e));
        let i = choose|i: int| 0 <= i < s.file_log.len() && s.file_log[i] == e;
        assert(s.file_entry_traced(s.file_log[i]));
        assert(spared(in_drive::<ChangedFileView>(d))(e));
        lemma_file_entry_kept(s, t, e);
    }
}

/// Opening a drive that the replica does not hold keeps it well formed.
pub proof fn lemma_open_drive_wf(s: StoreView, d: Seq<char>, name: Seq<char>, token: Seq<char>)
    requires
        s.wf(),
        !present(s.drives, d, d),
    ensures
        s.open_drive(d, name, token).wf(),
        s.open_drive(d, name, token).drives == put(s.drives, DriveView { id: d, page_token: token }),
        s.open_drive(d, name, token).folders == put(s.folders, StoreView::root_of(d, name)),
        !present(s.folders, d, d),
{
    let c = s.clear_changelog(d);
    lemma_clear_changelog_wf(s, d);
    let t = s.open_drive(d, name, token);
    let row = DriveView { id: d, page_token: token };
    let root = StoreView::root_of(d, name);
    lemma_put(s.drives, row);
    assert(!present(s.folders, d, d)) by {
        if present(s.folders, d, d) {
            let k = index_of(s.folders, d, d);
            assert(present(s.drives, s.folders[k].drive_id, s.folders[k].drive_id));
        }
    }
    lemma_put(s.folders, root);
    lemma_put_tree(s.folders, root);
    lemma_filter_rows(s.folder_log, spared(in_drive::<ChangedFolderView>(d)));
    assert forall|k: int| 0 <= k < t.folders.len() implies present(
        t.drives,
        (#[trigger] t.folders[k]).drive_id,
        t.folders[k].drive_id,
    ) by {
        let g = t.folders[k];
        if g != root {
            let j = choose|j: int| 0 <= j < s.folders.len() && s.folders[j] == g;
            assert(present(s.drives, s.folders[j].drive_id, s.folders[j].drive_id));
        }
    }
    assert forall|k: int| 0 <= k < t.files.len() implies present(
        t.folders,
        (#[trigger] t.files[k]).drive_id,
        t.files[k].parent,
    ) by {
        assert(present(s.folders, s.files[k].drive_id, s.files[k].parent));
    }
    assert forall|k: int| 0 <= k < t.folder_log.len() implies folder_entry_ok(
        t.folders,
        #[trigger] t.folder_log[k],
    ) by {
        let x = t.folder_log[k];
        assert(folder_entry_ok(c.folders, c.folder_log[k]));
        assert(spared(in_drive::<ChangedFolderView>(d))(x));
        assert(!at_key(root, x.folder.drive_id, x.folder.id));
    }
    assert forall|k: int| 0 <= k < t.file_log.len() implies file_entry_ok(
        t.files,
        #[trigger] t.file_log[k],
    ) by {
        assert(file_entry_ok(c.files, c.file_log[k]));
    }
    lemma_filter_rows(s.file_log, spared(in_drive::<ChangedFileView>(d)));
    lemma_filter_get(s.folder_log, spared(in_drive::<ChangedFolderView>(d)));
    assert forall|d0: Seq<char>| d0 != d implies leads_on(s, t, d0) by {
        assert forall|id: Seq<char>| #[trigger]
            present(t.folders, d0, id) || (!present(s.folders, d0, id) && get(
                t.folder_log,
                d0,
                id,
            ) == get(s.folder_log, d0, id)) by {
            if present(s.folder_log, d0, id) {
                lemma_get_some(s.folder_log, d0, id);
            }
        }
    }
    assert forall|k: int| 0 <= k < t.folder_log.len() implies t.folder_entry_traced(
        #[trigger] t.folder_log[k],
    ) by {
        let e = t.folder_log[k];
        assert(s.folder_log.contains(e));
        let i = choose|i: int| 0 <= i < s.folder_log.len() && s.folder_log[i] == e;
        assert(s.folder_entry_traced(s.folder_log[i]));
        assert(spared(in_drive::<ChangedFolderView>(d))(e));
        lemma_folder_entry_kept(s, t, e);
    }
    assert forall|k: int| 0 <= k < t.file_log.len() implies t.file_entry_traced(
        #[trigger] t.file_log[k],
    ) by {
        let e = t.file_log[k];
        assert(s.file_log.contains(e));
        let i = choose|i: int| 0 <= i < s.file_log.len() && s.file_log[i] == e;
        assert(s.file_entry_traced(s.file_log[i]));
        assert(spared(in_drive::<ChangedFileView>(d))(e));
        lemma_file_entry_kept(s, t, e);
    }
}

/// A folder that reaches the root is under no id that its drive does not
/// hold.
pub proof fn lemma_not_under_absent(fs: Seq<FolderView>, g: FolderView, r: Seq<char>, n: nat)
    requires
        fs.contains(g),
        crate::database::tree::climbs(fs, g, n),
        !present(fs, g.drive_id, r),
    ensures
        !under(fs, g, r),
    decreases n,
{
    lemma_under_step(fs, g, r);
    let j = choose|j: int| 0 <= j < fs.len() && fs[j] == g;
    assert(at_key(fs[j], g.drive_id, g.id));
    match g.parent {
        None => {},
        Some(p) => {
            lemma_get_some(fs, g.drive_id, p);
            let h = get(fs, g.drive_id, p).unwrap();
            assert(fs[index_of(fs, g.drive_id, p)] == h);
            lemma_not_under_absent(fs, h, r, (n - 1) as nat);
        },
    }
}

/// A new folder whose parent the replica holds may be attached, and the
/// replica stays well formed where the changelog holds no entry with the
/// folder's key.
pub proof fn lemma_attach_folder_wf(s: StoreView, f: FolderView)
    requires
        s.wf(),
        f.parent is Some,
        present(s.folders, f.drive_id, f.parent.unwrap()),
        !present(s.folders, f.drive_id, f.id),
        !present(s.folder_log, f.drive_id, f.id),
    ensures
        s.attach_folder(f).wf(),
        s.attach_folder(f).folders == s.folders.push(f),
{
    let t = s.attach_folder(f);
    let p = f.parent.unwrap();
    lemma_get_some(s.folders, f.drive_id, p);
    let k = index_of(s.folders, f.drive_id, p);
    let parent = s.folders[k];
    assert(rooted(s.folders, s.folders[k]));
    assert(present(s.drives, s.folders[k].drive_id, s.folders[k].drive_id));
    lemma_not_under_absent(s.folders, parent, f.id, crate::database::tree::height(s.folders, parent));
    lemma_put(s.folders, f);
    lemma_put_tree(s.folders, f);
    assert forall|k: int| 0 <= k < t.folders.len() implies present(
        t.drives,
        (#[trigger] t.folders[k]).drive_id,
        t.folders[k].drive_id,
    ) by {
        let g = t.folders[k];
        if g != f {
            let j = choose|j: int| 0 <= j < s.folders.len() && s.folders[j] == g;
            assert(present(s.drives, s.folders[j].drive_id, s.folders[j].drive_id));
        }
    }
    assert forall|k: int| 0 <= k < t.files.len() implies present(
        t.folders,
        (#[trigger] t.files[k]).drive_id,
        t.files[k].parent,
    ) by {
        assert(present(s.folders, s.files[k].drive_id, s.files[k].parent));
    }
    assert forall|k: int| 0 <= k < t.folder_log.len() implies folder_entry_ok(
        t.folders,
        #[trigger] t.folder_log[k],
    ) by {
        let x = t.folder_log[k];
        assert(folder_entry_ok(s.folders, s.folder_log[k]));
        assert(at_key(s.folder_log[k], x.folder.drive_id, x.folder.id));
        assert(!at_key(f, x.folder.drive_id, x.folder.id));
    }
    assert forall|d0: Seq<char>| leads_on(s, t, d0) by {
        assert forall|id: Seq<char>| #[trigger]
            present(t.folders, d0, id) || (!present(s.folders, d0, id) && get(
                t.folder_log,
                d0,
                id,
            ) == get(s.folder_log, d0, id)) by {}
    }
    lemma_entries_kept(s, t);
    assert forall|k: int| 0 <= k < t.folder_log.len() implies t.folder_entry_traced(
        #[trigger] t.folder_log[k],
    ) by {
        assert(s.folder_entry_traced(s.folder_log[k]));
    }
    assert forall|k: int| 0 <= k < t.file_log.len() implies t.file_entry_traced(
        #[trigger] t.file_log[k],
    ) by {
        assert(s.file_entry_traced(s.file_log[k]));
    }
}

/// A new file whose parent the replica holds may be attached, and the
/// replica stays well formed where the changelog holds no entry with the
/// file's key.
pub proof fn lemma_attach_file_wf(s: StoreView, y: FileView)
    requires
        s.wf(),
        present(s.folders, y.drive_id, y.parent),
        !present(s.files, y.drive_id, y.id),
        !present(s.file_log, y.drive_id, y.id),
    ensures
        s.attach_file(y).wf(),
        s.attach_file(y).files == s.files.push(y),
{
    let t = s.attach_file(y);
    lemma_put(s.files, y);
    assert forall|k: int| 0 <= k < t.files.len() implies present(
        t.folders,
        (#[trigger] t.files[k]).drive_id,
        t.files[k].parent,
    ) by {
        let g = t.files[k];
        if g != y {
            let j = choose|j: int| 0 <= j < s.files.len() && s.files[j] == g;
            assert(present(s.folders, s.files[j].drive_id, s.files[j].parent));
        }
    }
    assert forall|k: int| 0 <= k < t.file_log.len() implies file_entry_ok(
        t.files,
        #[trigger] t.file_log[k],
    ) by {
        let x = t.file_log[k];
        assert(file_entry_ok(s.files, s.file_log[k]));
        assert(at_key(s.file_log[k], x.file.drive_id, x.file.id));
        assert(!at_key(y, x.file.drive_id, x.file.id));
    }
    assert forall|d0: Seq<char>| leads_on(s, t, d0) by {}
    lemma_entries_kept(s, t);
    assert forall|k: int| 0 <= k < t.folder_log.len() implies t.folder_entry_traced(
        #[trigger] t.folder_log[k],
    ) by {
        assert(s.folder_entry_traced(s.folder_log[k]));
    }
    assert forall|k: int| 0 <= k < t.file_log.len() implies t.file_entry_traced(
        #[trigger] t.file_log[k],
    ) by {
        assert(s.file_entry_traced(s.file_log[k]));
    }
}

} // verus!
