//! The first load of a drive: the state between two insertions, and why the
//! load ends with exactly the items that hang on the root.

use vstd::prelude::*;
use crate::fetch::ItemView;
use crate::model::{ChangedFileView, ChangedFolderView, DriveView, FolderView};
use crate::database::sound::{lemma_attach_file_wf, lemma_attach_folder_wf, lemma_open_drive_wf};
use crate::database::state::{attachable, clashes, holds_item, loaded, same_row, StoreView};
use crate::database::tables::{
    at_key,
    get,
    in_drive,
    index_of,
    lemma_filter_rows,
    lemma_get_some,
    lemma_put,
    present,
    spared,
    unique,
    without,
};
use crate::database::tree::{climbs, lemma_step, rooted, tree_ok};

verus! {

/// The number of items that are not inserted yet.
pub open spec fn todo(done: Seq<bool>) -> nat
    decreases done.len(),
{
    if done.len() == 0 {
        0
    } else {
        todo(done.drop_last()) + if done.last() {
            0nat
        } else {
            1nat
        }
    }
}

/// Inserting one more item leaves one item less to insert.
pub proof fn lemma_todo_update(done: Seq<bool>, i: int)
    requires
        0 <= i < done.len(),
        !done[i],
    ensures
        todo(done.update(i, true)) + 1 == todo(done),
    decreases done.len(),
{
    let next = done.update(i, true);
    if i == done.len() - 1 {
        assert(next.drop_last() =~= done.drop_last());
    } else {
        lemma_todo_update(done.drop_last(), i);
        assert(next.drop_last() =~= done.drop_last().update(i, true));
    }
}

/// The state of a first load of drive `d` into the replica `s`, after the
/// items marked in `done` were inserted: the replica `w`.
pub open spec fn loading(
    s: StoreView,
    d: Seq<char>,
    name: Seq<char>,
    token: Seq<char>,
    items: Seq<ItemView>,
    done: Seq<bool>,
    w: StoreView,
) -> bool {
    &&& w.wf()
    &&& !clashes(items, d)
    &&& done.len() == items.len()
    &&& w.drives == s.drives.push(DriveView { id: d, page_token: token })
    &&& w.folder_log == without(s.folder_log, in_drive(d))
    &&& w.file_log == without(s.file_log, in_drive(d))
    &&& get(w.folders, d, d) == Some(StoreView::root_of(d, name))
    &&& forall|i: int| 0 <= i < items.len() && #[trigger] done[i] ==> holds_item(w, d, items[i])
    &&& forall|k: int|
        0 <= k < w.folders.len() ==> {
            let g = #[trigger] w.folders[k];
            if g.drive_id == d {
                g == StoreView::root_of(d, name) || exists|i: int|
                    0 <= i < items.len() && done[i] && #[trigger] items[i] == ItemView::Folder(g)
            } else {
                s.folders.contains(g)
            }
        }
    &&& forall|k: int|
        0 <= k < w.files.len() ==> {
            let y = #[trigger] w.files[k];
            if y.drive_id == d {
                exists|i: int|
                    0 <= i < items.len() && done[i] && #[trigger] items[i] == ItemView::File(y)
            } else {
                s.files.contains(y)
            }
        }
    &&& forall|k: int| 0 <= k < s.folders.len() ==> w.folders.contains(#[trigger] s.folders[k])
    &&& forall|k: int| 0 <= k < s.files.len() ==> w.files.contains(#[trigger] s.files[k])
}

/// A load starts with the drive, its root folder and nothing inserted.
pub proof fn lemma_loading_start(
    s: StoreView,
    d: Seq<char>,
    name: Seq<char>,
    token: Seq<char>,
    items: Seq<ItemView>,
    done: Seq<bool>,
)
    requires
        s.wf(),
        !present(s.drives, d, d),
        !clashes(items, d),
        done.len() == items.len(),
        forall|i: int| 0 <= i < done.len() ==> !done[i],
    ensures
        loading(s, d, name, token, items, done, s.open_drive(d, name, token)),
{
    let w = s.open_drive(d, name, token);
    let root = StoreView::root_of(d, name);
    lemma_open_drive_wf(s, d, name, token);
    lemma_put(s.folders, root);
    assert forall|k: int| 0 <= k < w.folders.len() implies {
        let g = #[trigger] w.folders[k];
        if g.drive_id == d {
            g == root || exists|i: int|
                0 <= i < items.len() && done[i] && #[trigger] items[i] == ItemView::Folder(g)
        } else {
            s.folders.contains(g)
        }
    } by {
        let g = w.folders[k];
        if k < s.folders.len() {
            assert(g == s.folders[k]);
            assert(present(s.drives, s.folders[k].drive_id, s.folders[k].drive_id));
        }
    }
    assert forall|k: int| 0 <= k < w.files.len() implies {
        let y = #[trigger] w.files[k];
        if y.drive_id == d {
            exists|i: int|
                0 <= i < items.len() && done[i] && #[trigger] items[i] == ItemView::File(y)
        } else {
            s.files.contains(y)
        }
    } by {
        let y = w.files[k];
        assert(y == s.files[k]);
        assert(present(s.folders, s.files[k].drive_id, s.files[k].parent));
        lemma_get_some(s.folders, y.drive_id, y.parent);
        let j = index_of(s.folders, y.drive_id, y.parent);
        assert(present(s.drives, s.folders[j].drive_id, s.folders[j].drive_id));
    }
    assert forall|k: int| 0 <= k < s.folders.len() implies w.folders.contains(
        #[trigger] s.folders[k],
    ) by {
        assert(w.folders[k] == s.folders[k]);
    }
    assert forall|k: int| 0 <= k < s.files.len() implies w.files.contains(
        #[trigger] s.files[k],
    ) by {
        assert(w.files[k] == s.files[k]);
    }
}

/// An item of the drive that is not inserted yet has no row, and no entry
/// in the changelog.
pub proof fn lemma_loading_fresh(
    s: StoreView,
    d: Seq<char>,
    name: Seq<char>,
    token: Seq<char>,
    items: Seq<ItemView>,
    done: Seq<bool>,
    w: StoreView,
    i: int,
)
    requires
        s.wf(),
        loading(s, d, name, token, items, done, w),
        0 <= i < items.len(),
        !done[i],
        items[i].drive_id() == d,
    ensures
        items[i] is Folder ==> !present(w.folders, d, items[i].id()) && !present(
            w.folder_log,
            d,
            items[i].id(),
        ),
        items[i] is File ==> !present(w.files, d, items[i].id()) && !present(
            w.file_log,
            d,
            items[i].id(),
        ),
{
    let id = items[i].id();
    lemma_filter_rows(s.folder_log, spared(in_drive::<ChangedFolderView>(d)));
    lemma_filter_rows(s.file_log, spared(in_drive::<ChangedFileView>(d)));
    if items[i] is Folder {
        if present(w.folders, d, id) {
            let k = index_of(w.folders, d, id);
            let g = w.folders[k];
            if g != StoreView::root_of(d, name) {
                let j = choose|j: int|
                    0 <= j < items.len() && done[j] && #[trigger] items[j] == ItemView::Folder(g);
                assert(same_row(items[i], items[j]));
                assert(same_row(items[j], items[i]));
            }
        }
        if present(w.folder_log, d, id) {
            let k = index_of(w.folder_log, d, id);
            assert(spared(in_drive::<ChangedFolderView>(d))(w.folder_log[k]));
        }
    } else {
        if present(w.files, d, id) {
            let k = index_of(w.files, d, id);
            let y = w.files[k];
            let j = choose|j: int|
                0 <= j < items.len() && done[j] && #[trigger] items[j] == ItemView::File(y);
            assert(same_row(items[i], items[j]));
            assert(same_row(items[j], items[i]));
        }
        if present(w.file_log, d, id) {
            let k = index_of(w.file_log, d, id);
            assert(spared(in_drive::<ChangedFileView>(d))(w.file_log[k]));
        }
    }
}

/// Inserting a folder whose parent is there keeps the load in order.
pub proof fn lemma_loading_folder(
    s: StoreView,
    d: Seq<char>,
    name: Seq<char>,
    token: Seq<char>,
    items: Seq<ItemView>,
    done: Seq<bool>,
    w: StoreView,
    i: int,
)
    requires
        s.wf(),
        loading(s, d, name, token, items, done, w),
        0 <= i < items.len(),
        !done[i],
        items[i] is Folder,
        attachable(w, d, items[i]),
    ensures
        loading(
            s,
            d,
            name,
            token,
            items,
            done.update(i, true),
            w.attach_folder(items[i]->Folder_0),
        ),
        w.attach_folder(items[i]->Folder_0).folders == w.folders.push(items[i]->Folder_0),
{
    let f = items[i]->Folder_0;
    let w2 = w.attach_folder(f);
    let done2 = done.update(i, true);
    let root = StoreView::root_of(d, name);
    lemma_loading_fresh(s, d, name, token, items, done, w, i);
    lemma_attach_folder_wf(w, f);
    lemma_put(w.folders, f);
    assert(w2.folders[w.folders.len() as int] == f);
    assert forall|j: int| 0 <= j < items.len() && #[trigger] done2[j] implies holds_item(
        w2,
        d,
        items[j],
    ) by {
        if j != i {
            assert(done[j]);
            assert(holds_item(w, d, items[j]));
            if items[j] is Folder {
                if i < j {
                    assert(!same_row(items[i], items[j]));
                } else {
                    assert(!same_row(items[j], items[i]));
                }
                assert(!at_key(f, d, items[j].id()));
            }
        }
    }
    assert forall|k: int| 0 <= k < w2.folders.len() implies {
        let g = #[trigger] w2.folders[k];
        if g.drive_id == d {
            g == root || exists|j: int|
                0 <= j < items.len() && done2[j] && #[trigger] items[j] == ItemView::Folder(g)
        } else {
            s.folders.contains(g)
        }
    } by {
        let g = w2.folders[k];
        if k < w.folders.len() {
            assert(g == w.folders[k]);
            if g.drive_id == d && g != root {
                let j = choose|j: int|
                    0 <= j < items.len() && done[j] && #[trigger] items[j] == ItemView::Folder(g);
                assert(done2[j] && items[j] == ItemView::Folder(g));
            }
        } else {
            assert(done2[i] && items[i] == ItemView::Folder(g));
        }
    }
    assert forall|k: int| 0 <= k < w2.files.len() implies {
        let y = #[trigger] w2.files[k];
        if y.drive_id == d {
            exists|j: int|
                0 <= j < items.len() && done2[j] && #[trigger] items[j] == ItemView::File(y)
        } else {
            s.files.contains(y)
        }
    } by {
        let y = w2.files[k];
        assert(y == w.files[k]);
        if y.drive_id == d {
            let j = choose|j: int|
                0 <= j < items.len() && done[j] && #[trigger] items[j] == ItemView::File(y);
            assert(done2[j] && items[j] == ItemView::File(y));
        }
    }
    assert forall|k: int| 0 <= k < s.folders.len() implies w2.folders.contains(
        #[trigger] s.folders[k],
    ) by {
        assert(w.folders.contains(s.folders[k]));
        let j = choose|j: int| 0 <= j < w.folders.len() && w.folders[j] == s.folders[k];
        assert(w2.folders[j] == s.folders[k]);
    }
}

/// Inserting a file whose parent is there keeps the load in order.
pub proof fn lemma_loading_file(
    s: StoreView,
    d: Seq<char>,
    name: Seq<char>,
    token: Seq<char>,
    items: Seq<ItemView>,
    done: Seq<bool>,
    w: StoreView,
    i: int,
)
    requires
        s.wf(),
        loading(s, d, name, token, items, done, w),
        0 <= i < items.len(),
        !done[i],
        items[i] is File,
        attachable(w, d, items[i]),
    ensures
        loading(s, d, name, token, items, done.update(i, true), w.attach_file(items[i]->File_0)),
        w.attach_file(items[i]->File_0).files == w.files.push(items[i]->File_0),
{
    let y = items[i]->File_0;
    let w2 = w.attach_file(y);
    let done2 = done.update(i, true);
    let root = StoreView::root_of(d, name);
    lemma_loading_fresh(s, d, name, token, items, done, w, i);
    lemma_attach_file_wf(w, y);
    lemma_put(w.files, y);
    assert(w2.files[w.files.len() as int] == y);
    assert forall|j: int| 0 <= j < items.len() && #[trigger] done2[j] implies holds_item(
        w2,
        d,
        items[j],
    ) by {
        if j != i {
            assert(done[j]);
            assert(holds_item(w, d, items[j]));
            if items[j] is File {
                if i < j {
                    assert(!same_row(items[i], items[j]));
                } else {
                    assert(!same_row(items[j], items[i]));
                }
                assert(!at_key(y, d, items[j].id()));
            }
        }
    }
    assert forall|k: int| 0 <= k < w2.folders.len() implies {
        let g = #[trigger] w2.folders[k];
        if g.drive_id == d {
            g == root || exists|j: int|
                0 <= j < items.len() && done2[j] && #[trigger] items[j] == ItemView::Folder(g)
        } else {
            s.folders.contains(g)
        }
    } by {
        let g = w2.folders[k];
        if g.drive_id == d && g != root {
            let j = choose|j: int|
                0 <= j < items.len() && done[j] && #[trigger] items[j] == ItemView::Folder(g);
            assert(done2[j] && items[j] == ItemView::Folder(g));
        }
    }
    assert forall|k: int| 0 <= k < w2.files.len() implies {
        let x = #[trigger] w2.files[k];
        if x.drive_id == d {
            exists|j: int|
                0 <= j < items.len() && done2[j] && #[trigger] items[j] == ItemView::File(x)
        } else {
            s.files.contains(x)
        }
    } by {
        let x = w2.files[k];
        if k < w.files.len() {
            assert(x == w.files[k]);
            if x.drive_id == d {
                let j = choose|j: int|
                    0 <= j < items.len() && done[j] && #[trigger] items[j] == ItemView::File(x);
                assert(done2[j] && items[j] == ItemView::File(x));
            }
        } else {
            assert(done2[i] && items[i] == ItemView::File(x));
        }
    }
    assert forall|k: int| 0 <= k < s.files.len() implies w2.files.contains(
        #[trigger] s.files[k],
    ) by {
        assert(w.files.contains(s.files[k]));
        let j = choose|j: int| 0 <= j < w.files.len() && w.files[j] == s.files[k];
        assert(w2.files[j] == s.files[k]);
    }
}

/// A load ends when no item that is left has its parent in the replica:
/// then the replica holds exactly the items whose parent it holds.
pub proof fn lemma_loading_end(
    s: StoreView,
    d: Seq<char>,
    name: Seq<char>,
    token: Seq<char>,
    items: Seq<ItemView>,
    done: Seq<bool>,
    w: StoreView,
)
    requires
        s.wf(),
        loading(s, d, name, token, items, done, w),
        forall|i: int| 0 <= i < items.len() && !done[i] ==> !attachable(w, d, #[trigger] items[i]),
    ensures
        loaded(s, d, name, token, items, w),
        forall|i: int| 0 <= i < items.len() ==> (done[i] <==> holds_item(w, d, #[trigger] items[i])),
{
    assert forall|i: int| 0 <= i < items.len() implies (done[i] <==> holds_item(
        w,
        d,
        #[trigger] items[i],
    )) by {
        if !done[i] && items[i].drive_id() == d {
            lemma_loading_fresh(s, d, name, token, items, done, w, i);
        }
    }
    assert forall|i: int| 0 <= i < items.len() implies (holds_item(w, d, #[trigger] items[i])
        <==> attachable(w, d, items[i])) by {
        if done[i] {
            assert(holds_item(w, d, items[i]));
            match items[i] {
                ItemView::Folder(f) => {
                    lemma_get_some(w.folders, d, f.id);
                    let k = index_of(w.folders, d, f.id);
                    assert(rooted(w.folders, w.folders[k]));
                    lemma_step(
                        w.folders,
                        f,
                        crate::database::tree::height(w.folders, f),
                    );
                    if f.parent is None {
                        // a listed folder with the drive's id would take the root's place
                        assert(items[i] is Folder && items[i].drive_id() == d && items[i].id()
                            == d);
                    }
                },
                ItemView::File(y) => {
                    lemma_get_some(w.files, d, y.id);
                    let k = index_of(w.files, d, y.id);
                    assert(present(w.folders, w.files[k].drive_id, w.files[k].parent));
                },
            }
        }
    }
    assert forall|k: int| 0 <= k < w.folders.len() implies {
        let g = #[trigger] w.folders[k];
        if g.drive_id == d {
            g == StoreView::root_of(d, name) || items.contains(ItemView::Folder(g))
        } else {
            s.folders.contains(g)
        }
    } by {
        let g = w.folders[k];
        if g.drive_id == d && g != StoreView::root_of(d, name) {
            let j = choose|j: int|
                0 <= j < items.len() && done[j] && #[trigger] items[j] == ItemView::Folder(g);
            assert(items[j] == ItemView::Folder(g));
        }
    }
    assert forall|k: int| 0 <= k < w.files.len() implies {
        let y = #[trigger] w.files[k];
        if y.drive_id == d {
            items.contains(ItemView::File(y))
        } else {
            s.files.contains(y)
        }
    } by {
        let y = w.files[k];
        if y.drive_id == d {
            let j = choose|j: int|
                0 <= j < items.len() && done[j] && #[trigger] items[j] == ItemView::File(y);
            assert(items[j] == ItemView::File(y));
        }
    }
}

/// Whether the folder at `k` can be seen to reach the root, given the
/// folders marked as reaching it: it is a root, or its parent is marked.
pub open spec fn markable(fs: Seq<FolderView>, marks: Seq<bool>, k: int) -> bool {
    match fs[k].parent {
        None => fs[k].id == fs[k].drive_id,
        Some(p) => present(fs, fs[k].drive_id, p) && marks[index_of(fs, fs[k].drive_id, p)],
    }
}

/// Every marked folder reaches the root.
pub open spec fn marks_sound(fs: Seq<FolderView>, marks: Seq<bool>) -> bool {
    marks.len() == fs.len() && forall|k: int|
        0 <= k < fs.len() && #[trigger] marks[k] ==> rooted(fs, fs[k])
}

/// No folder is left that could be marked.
pub open spec fn marks_full(fs: Seq<FolderView>, marks: Seq<bool>) -> bool {
    forall|k: int| 0 <= k < fs.len() && !#[trigger] marks[k] ==> !markable(fs, marks, k)
}

/// Marking a folder that can be marked keeps the marks sound.
pub proof fn lemma_mark(fs: Seq<FolderView>, marks: Seq<bool>, k: int)
    requires
        unique(fs),
        marks_sound(fs, marks),
        0 <= k < fs.len(),
        markable(fs, marks, k),
    ensures
        marks_sound(fs, marks.update(k, true)),
{
    let f = fs[k];
    match f.parent {
        None => {
            assert(climbs(fs, f, 0));
        },
        Some(p) => {
            lemma_get_some(fs, f.drive_id, p);
            let j = index_of(fs, f.drive_id, p);
            assert(rooted(fs, fs[j]));
            let n = crate::database::tree::height(fs, fs[j]);
            assert(climbs(fs, f, n + 1));
        },
    }
}

/// Once no folder is left that could be marked, every folder that reaches
/// the root is marked.
pub proof fn lemma_marks_complete(fs: Seq<FolderView>, marks: Seq<bool>, k: int, n: nat)
    requires
        unique(fs),
        marks.len() == fs.len(),
        marks_full(fs, marks),
        0 <= k < fs.len(),
        climbs(fs, fs[k], n),
    ensures
        marks[k],
    decreases n,
{
    let f = fs[k];
    match f.parent {
        None => {},
        Some(p) => {
            lemma_get_some(fs, f.drive_id, p);
            let j = index_of(fs, f.drive_id, p);
            lemma_marks_complete(fs, marks, j, (n - 1) as nat);
        },
    }
}

/// Once no folder is left that could be marked, the table is a tree
/// exactly if every folder is marked.
pub proof fn lemma_marks_decide(fs: Seq<FolderView>, marks: Seq<bool>)
    requires
        unique(fs),
        marks_sound(fs, marks),
        marks_full(fs, marks),
    ensures
        tree_ok(fs) <==> todo(marks) == 0,
{
    lemma_todo_zero(marks);
    if tree_ok(fs) {
        assert forall|k: int| 0 <= k < marks.len() implies marks[k] by {
            assert(rooted(fs, fs[k]));
            lemma_marks_complete(fs, marks, k, crate::database::tree::height(fs, fs[k]));
        }
    }
    if todo(marks) == 0 {
        assert forall|k: int| 0 <= k < fs.len() implies rooted(fs, #[trigger] fs[k]) by {
            assert(marks[k]);
        }
    }
}

/// Nothing is left to do exactly if everything is marked.
pub proof fn lemma_todo_zero(done: Seq<bool>)
    ensures
        todo(done) == 0 <==> forall|k: int| 0 <= k < done.len() ==> done[k],
    decreases done.len(),
{
    if done.len() > 0 {
        let rest = done.drop_last();
        lemma_todo_zero(rest);
        if todo(done) == 0 {
            assert forall|k: int| 0 <= k < done.len() implies done[k] by {
                if k < rest.len() {
                    assert(rest[k] == done[k]);
                }
            }
        }
        if forall|k: int| 0 <= k < done.len() ==> done[k] {
            assert forall|k: int| 0 <= k < rest.len() implies rest[k] by {
                assert(rest[k] == done[k]);
            }
            assert(done[done.len() - 1]);
        }
    }
}

} // verus!
