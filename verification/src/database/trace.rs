//! Tracing the place of an entity that the changelog shows to the top of
//! its drive, and why every operation of the merge engine keeps that
//! possible.

use vstd::prelude::*;
use crate::model::{ChangedFileView, ChangedFolderView};
use crate::database::laws::lemma_log_all_keys;
use crate::database::state::{deleted_folder, lemma_log_all, log_all, StoreView};
use crate::database::tables::{
    at_key,
    get,
    index_of,
    lemma_filter_get,
    lemma_filter_rows,
    lemma_get_at,
    lemma_get_some,
    lemma_put,
    present,
    spared,
    unique,
    Row,
};
use crate::database::tree::{climbs, height, rooted, subtree};

verus! {

/// The lookups of drive `d` in `t` lead where those in `s` led: a folder
/// exists in `t`, or it did not exist in `s` and the changelog shows of it
/// in `t` what it showed in `s`.
pub open spec fn leads_on(s: StoreView, t: StoreView, d: Seq<char>) -> bool {
    forall|id: Seq<char>| #[trigger]
        present(t.folders, d, id) || (!present(s.folders, d, id) && get(t.folder_log, d, id) == get(
            s.folder_log,
            d,
            id,
        ))
}

/// Where the lookups lead on, what could be traced can still be traced,
/// through no more removed folders than before.
pub proof fn lemma_resolves_kept(s: StoreView, t: StoreView, d: Seq<char>, pid: Seq<char>, n: nat)
    requires
        leads_on(s, t, d),
        s.resolves(d, pid, n),
    ensures
        t.resolves(d, pid, n),
    decreases n,
{
    if !present(t.folders, d, pid) {
        match get(s.folder_log, d, pid) {
            Some(e) => match e.folder.parent {
                Some(above) => {
                    lemma_resolves_kept(s, t, d, above, (n - 1) as nat);
                },
                None => {},
            },
            None => {},
        }
    }
}

/// Where the lookups of every drive lead on, the entries that could be
/// traced can still be traced.
pub proof fn lemma_entries_kept(s: StoreView, t: StoreView)
    requires
        forall|d: Seq<char>| leads_on(s, t, d),
    ensures
        forall|e: ChangedFolderView| #[trigger]
            s.folder_entry_traced(e) ==> t.folder_entry_traced(e),
        forall|e: ChangedFileView| #[trigger] s.file_entry_traced(e) ==> t.file_entry_traced(e),
{
    assert forall|e: ChangedFolderView| #[trigger] s.folder_entry_traced(e) implies t.folder_entry_traced(
        e,
    ) by {
        lemma_folder_entry_kept(s, t, e);
    }
    assert forall|e: ChangedFileView| #[trigger] s.file_entry_traced(e) implies t.file_entry_traced(
        e,
    ) by {
        lemma_file_entry_kept(s, t, e);
    }
}

/// Where the lookups of its drive lead on, a folder entry that could be
/// traced can still be traced.
pub proof fn lemma_folder_entry_kept(s: StoreView, t: StoreView, e: ChangedFolderView)
    requires
        leads_on(s, t, e.folder.drive_id),
        s.folder_entry_traced(e),
    ensures
        t.folder_entry_traced(e),
{
    match e.folder.parent {
        Some(p) => {
            let n = choose|n: nat| s.resolves(e.folder.drive_id, p, n);
            lemma_resolves_kept(s, t, e.folder.drive_id, p, n);
        },
        None => {},
    }
}

/// Where the lookups of its drive lead on, a file entry that could be
/// traced can still be traced.
pub proof fn lemma_file_entry_kept(s: StoreView, t: StoreView, e: ChangedFileView)
    requires
        leads_on(s, t, e.file.drive_id),
        s.file_entry_traced(e),
    ensures
        t.file_entry_traced(e),
{
    let n = choose|n: nat| s.resolves(e.file.drive_id, e.file.parent, n);
    lemma_resolves_kept(s, t, e.file.drive_id, e.file.parent, n);
}

/// Where rows with distinct keys were entered in a changelog, a lookup by
/// the key of one of them gives its entry.
pub proof fn lemma_log_all_get<R, E: Row>(
    log: Seq<E>,
    rows: Seq<R>,
    entry: spec_fn(R) -> E,
    j: int,
)
    requires
        unique(log),
        0 <= j < rows.len(),
        forall|a: int, b: int|
            0 <= a < rows.len() && 0 <= b < rows.len() && a != b ==> !at_key(
                entry(#[trigger] rows[a]),
                entry(#[trigger] rows[b]).drive(),
                entry(rows[b]).ident(),
            ),
    ensures
        get(log_all(log, rows, entry), entry(rows[j]).drive(), entry(rows[j]).ident()) == Some(
            entry(rows[j]),
        ),
    decreases rows.len(),
{
    let rows0 = rows.drop_last();
    let log0 = log_all(log, rows0, entry);
    let x = entry(rows.last());
    lemma_log_all(log, rows0, entry);
    lemma_put(log0, x);
    if j < rows.len() - 1 {
        assert forall|a: int, b: int|
            0 <= a < rows0.len() && 0 <= b < rows0.len() && a != b implies !at_key(
            entry(#[trigger] rows0[a]),
            entry(#[trigger] rows0[b]).drive(),
            entry(rows0[b]).ident(),
        ) by {
            assert(rows0[a] == rows[a] && rows0[b] == rows[b]);
        }
        lemma_log_all_get(log, rows0, entry, j);
        assert(rows0[j] == rows[j]);
        assert(!at_key(
            entry(rows[rows.len() - 1]),
            entry(rows[j]).drive(),
            entry(rows[j]).ident(),
        ));
    }
}

/// A folder that goes with the removal of an item is shown by the
/// changelog afterwards, as removed and as it was.
pub proof fn lemma_removed_is_logged(s: StoreView, d: Seq<char>, id: Seq<char>, k: int)
    requires
        s.wf(),
        0 <= k < s.folders.len(),
        subtree(s.folders, d, id)(s.folders[k]),
    ensures
        get(s.remove_item(d, id).folder_log, d, s.folders[k].id) == Some(
            deleted_folder()(s.folders[k]),
        ),
        !present(s.remove_item(d, id).folders, d, s.folders[k].id),
{
    let g = s.folders[k];
    let gone = subtree(s.folders, d, id);
    let went = s.folders.filter(gone);
    lemma_filter_rows(s.folders, gone);
    lemma_filter_get(s.folders, gone);
    lemma_filter_get(s.folders, spared(gone));
    lemma_get_at(s.folders, k);
    assert(went.contains(s.folders[k]));
    let j = choose|j: int| 0 <= j < went.len() && went[j] == g;
    assert forall|a: int, b: int|
        0 <= a < went.len() && 0 <= b < went.len() && a != b implies !at_key(
        deleted_folder()(#[trigger] went[a]),
        deleted_folder()(#[trigger] went[b]).drive(),
        deleted_folder()(went[b]).ident(),
    ) by {
        assert(!at_key(went[a], went[b].drive(), went[b].ident()));
    }
    lemma_log_all_get(s.folder_log, went, deleted_folder(), j);
}

/// After the removal of an item, a folder that existed before can be
/// traced: it exists still, or the changelog shows it with its parent,
/// which existed before.
pub proof fn lemma_live_resolves(s: StoreView, d: Seq<char>, id: Seq<char>, k: int, n: nat)
    requires
        s.wf(),
        0 <= k < s.folders.len(),
        climbs(s.folders, s.folders[k], n),
    ensures
        s.remove_item(d, id).resolves(s.folders[k].drive_id, s.folders[k].id, n),
    decreases n,
{
    let t = s.remove_item(d, id);
    let g = s.folders[k];
    let gone = subtree(s.folders, d, id);
    lemma_filter_get(s.folders, spared(gone));
    lemma_get_at(s.folders, k);
    if gone(g) {
        lemma_removed_is_logged(s, d, id, k);
        match g.parent {
            Some(p) => {
                lemma_get_some(s.folders, g.drive_id, p);
                let j = index_of(s.folders, g.drive_id, p);
                lemma_live_resolves(s, d, id, j, (n - 1) as nat);
            },
            None => {},
        }
    } else {
        assert(get(t.folders, g.drive_id, g.id) == Some(g));
    }
}

/// After the removal of an item, what could be traced can still be traced.
pub proof fn lemma_resolves_after_remove(
    s: StoreView,
    d: Seq<char>,
    id: Seq<char>,
    d0: Seq<char>,
    pid: Seq<char>,
    n: nat,
)
    requires
        s.wf(),
        s.resolves(d0, pid, n),
    ensures
        exists|m: nat| s.remove_item(d, id).resolves(d0, pid, m),
    decreases n,
{
    let t = s.remove_item(d, id);
    let gone = subtree(s.folders, d, id);
    let went = s.folders.filter(gone);
    if present(s.folders, d0, pid) {
        lemma_get_some(s.folders, d0, pid);
        let k = index_of(s.folders, d0, pid);
        assert(rooted(s.folders, s.folders[k]));
        lemma_live_resolves(s, d, id, k, height(s.folders, s.folders[k]));
    } else {
        lemma_filter_get(s.folders, spared(gone));
        lemma_filter_rows(s.folders, gone);
        lemma_log_all_keys(s.folder_log, went, deleted_folder());
        assert forall|j: int| 0 <= j < went.len() implies !at_key(
            deleted_folder()(#[trigger] went[j]),
            d0,
            pid,
        ) by {
            assert(s.folders.contains(went[j]));
            let i = choose|i: int| 0 <= i < s.folders.len() && s.folders[i] == went[j];
            assert(at_key(s.folders[i], went[j].drive_id, went[j].id));
        }
        assert(get(t.folder_log, d0, pid) == get(s.folder_log, d0, pid));
        let e = get(s.folder_log, d0, pid).unwrap();
        match e.folder.parent {
            Some(above) => {
                lemma_resolves_after_remove(s, d, id, d0, above, (n - 1) as nat);
                let m = choose|m: nat| t.resolves(d0, above, m);
                assert(t.resolves(d0, pid, m + 1));
            },
            None => {
                assert(t.resolves(d0, pid, 0));
            },
        }
    }
}

/// Whether the entry at `j` of the folder changelog can be seen to be
/// traced, given the entries marked as traced: its folder exists, or was
/// the root, or its last known parent exists or has a marked entry.
pub open spec fn entry_markable(s: StoreView, marks: Seq<bool>, j: int) -> bool {
    let f = s.folder_log[j].folder;
    present(s.folders, f.drive_id, f.id) || (match f.parent {
        None => true,
        Some(p) => present(s.folders, f.drive_id, p) || (present(s.folder_log, f.drive_id, p)
            && marks[index_of(s.folder_log, f.drive_id, p)]),
    })
}

/// The folder of every marked entry can be traced.
pub open spec fn entry_marks_sound(s: StoreView, marks: Seq<bool>) -> bool {
    marks.len() == s.folder_log.len() && forall|j: int|
        0 <= j < s.folder_log.len() && #[trigger] marks[j] ==> exists|n: nat|
            s.resolves(s.folder_log[j].folder.drive_id, s.folder_log[j].folder.id, n)
}

/// No entry is left that could be marked.
pub open spec fn entry_marks_full(s: StoreView, marks: Seq<bool>) -> bool {
    forall|j: int| 0 <= j < s.folder_log.len() && !#[trigger] marks[j] ==> !entry_markable(s, marks, j)
}

/// Marking an entry that can be marked keeps the marks sound.
pub proof fn lemma_entry_mark(s: StoreView, marks: Seq<bool>, j: int)
    requires
        unique(s.folder_log),
        entry_marks_sound(s, marks),
        0 <= j < s.folder_log.len(),
        entry_markable(s, marks, j),
    ensures
        entry_marks_sound(s, marks.update(j, true)),
{
    let f = s.folder_log[j].folder;
    let d = f.drive_id;
    lemma_get_at(s.folder_log, j);
    if present(s.folders, d, f.id) {
        assert(s.resolves(d, f.id, 0));
    } else {
        match f.parent {
            None => {
                assert(s.resolves(d, f.id, 0));
            },
            Some(p) => {
                if present(s.folders, d, p) {
                    assert(s.resolves(d, p, 0));
                    assert(s.resolves(d, f.id, 1));
                } else {
                    lemma_get_some(s.folder_log, d, p);
                    let i = index_of(s.folder_log, d, p);
                    let n = choose|n: nat|
                        s.resolves(s.folder_log[i].folder.drive_id, s.folder_log[i].folder.id, n);
                    assert(s.resolves(d, f.id, n + 1));
                }
            },
        }
    }
}

/// Once no entry is left that could be marked, every entry whose folder
/// can be traced is marked.
pub proof fn lemma_entry_marks_complete(s: StoreView, marks: Seq<bool>, j: int, n: nat)
    requires
        unique(s.folder_log),
        marks.len() == s.folder_log.len(),
        entry_marks_full(s, marks),
        0 <= j < s.folder_log.len(),
        s.resolves(s.folder_log[j].folder.drive_id, s.folder_log[j].folder.id, n),
    ensures
        marks[j],
    decreases n,
{
    let f = s.folder_log[j].folder;
    let d = f.drive_id;
    lemma_get_at(s.folder_log, j);
    if !present(s.folders, d, f.id) {
        match f.parent {
            None => {},
            Some(p) => {
                if !present(s.folders, d, p) {
                    assert(get(s.folder_log, d, f.id) == Some(s.folder_log[j]));
                    assert(s.resolves(d, p, (n - 1) as nat));
                    assert(present(s.folder_log, d, p));
                    lemma_get_some(s.folder_log, d, p);
                    let i = index_of(s.folder_log, d, p);
                    lemma_entry_marks_complete(s, marks, i, (n - 1) as nat);
                }
            },
        }
    }
}

/// Once no entry is left that could be marked, a folder can be traced
/// exactly if it exists or has a marked entry.
pub proof fn lemma_entry_marks_decide(s: StoreView, marks: Seq<bool>, d: Seq<char>, p: Seq<char>)
    requires
        unique(s.folder_log),
        entry_marks_sound(s, marks),
        entry_marks_full(s, marks),
    ensures
        (exists|n: nat| s.resolves(d, p, n)) <==> (present(s.folders, d, p) || (present(
            s.folder_log,
            d,
            p,
        ) && marks[index_of(s.folder_log, d, p)])),
{
    if present(s.folders, d, p) {
        assert(s.resolves(d, p, 0));
    } else if present(s.folder_log, d, p) {
        lemma_get_some(s.folder_log, d, p);
        let i = index_of(s.folder_log, d, p);
        if marks[i] {
            let n = choose|n: nat|
                s.resolves(s.folder_log[i].folder.drive_id, s.folder_log[i].folder.id, n);
            assert(s.resolves(d, p, n));
        }
        if exists|n: nat| s.resolves(d, p, n) {
            let n = choose|n: nat| s.resolves(d, p, n);
            lemma_entry_marks_complete(s, marks, i, n);
        }
    } else {
        assert forall|n: nat| !s.resolves(d, p, n) by {}
    }
}

} // verus!
