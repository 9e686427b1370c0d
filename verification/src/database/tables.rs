//! Tables as sequences of rows with a composite key `(drive, id)`, and the
//! facts about looking rows up that the merge engine rests on.

use vstd::prelude::*;
use crate::model::{ChangedFileView, ChangedFolderView, DriveView, FileView, FolderView};

verus! {

/// A row with a composite key: the drive that owns it and its id there.
pub trait Row: Sized {
    spec fn drive(&self) -> Seq<char>;

    spec fn ident(&self) -> Seq<char>;
}

impl Row for DriveView {
    open spec fn drive(&self) -> Seq<char> {
        self.id
    }

    open spec fn ident(&self) -> Seq<char> {
        self.id
    }
}

impl Row for FolderView {
    open spec fn drive(&self) -> Seq<char> {
        self.drive_id
    }

    open spec fn ident(&self) -> Seq<char> {
        self.id
    }
}

impl Row for FileView {
    open spec fn drive(&self) -> Seq<char> {
        self.drive_id
    }

    open spec fn ident(&self) -> Seq<char> {
        self.id
    }
}

impl Row for ChangedFolderView {
    open spec fn drive(&self) -> Seq<char> {
        self.folder.drive_id
    }

    open spec fn ident(&self) -> Seq<char> {
        self.folder.id
    }
}

impl Row for ChangedFileView {
    open spec fn drive(&self) -> Seq<char> {
        self.file.drive_id
    }

    open spec fn ident(&self) -> Seq<char> {
        self.file.id
    }
}

/// Whether `r` is the row with key `(d, id)`.
pub open spec fn at_key<R: Row>(r: R, d: Seq<char>, id: Seq<char>) -> bool {
    r.drive() == d && r.ident() == id
}

/// Whether the table holds a row with key `(d, id)`.
pub open spec fn present<R: Row>(t: Seq<R>, d: Seq<char>, id: Seq<char>) -> bool {
    exists|k: int| 0 <= k < t.len() && at_key(#[trigger] t[k], d, id)
}

/// The position of a row with key `(d, id)`.
pub open spec fn index_of<R: Row>(t: Seq<R>, d: Seq<char>, id: Seq<char>) -> int {
    choose|k: int| 0 <= k < t.len() && at_key(#[trigger] t[k], d, id)
}

/// The row with key `(d, id)`, if the table holds one.
pub open spec fn get<R: Row>(t: Seq<R>, d: Seq<char>, id: Seq<char>) -> Option<R> {
    if present(t, d, id) {
        Some(t[index_of(t, d, id)])
    } else {
        None
    }
}

/// No two rows of the table share a key.
pub open spec fn unique<R: Row>(t: Seq<R>) -> bool {
    forall|i: int, j: int|
        0 <= i < t.len() && 0 <= j < t.len() && i != j ==> !at_key(
            #[trigger] t[j],
            (#[trigger] t[i]).drive(),
            t[i].ident(),
        )
}

/// The table after an upsert: the row with the same key is overwritten in
/// place, a row with a new key is appended.
pub open spec fn put<R: Row>(t: Seq<R>, r: R) -> Seq<R> {
    if present(t, r.drive(), r.ident()) {
        t.update(index_of(t, r.drive(), r.ident()), r)
    } else {
        t.push(r)
    }
}

/// The rows that `doomed` does not select.
pub open spec fn spared<R>(doomed: spec_fn(R) -> bool) -> spec_fn(R) -> bool {
    |r: R| !doomed(r)
}

/// The table without the rows that `doomed` selects.
pub open spec fn without<R: Row>(t: Seq<R>, doomed: spec_fn(R) -> bool) -> Seq<R> {
    t.filter(spared(doomed))
}

/// The rows that belong to drive `d`.
pub open spec fn in_drive<R: Row>(d: Seq<char>) -> spec_fn(R) -> bool {
    |r: R| r.drive() == d
}

/// A row found at position `k` is the row that a lookup by its key gives.
pub proof fn lemma_get_at<R: Row>(t: Seq<R>, k: int)
    requires
        unique(t),
        0 <= k < t.len(),
    ensures
        present(t, t[k].drive(), t[k].ident()),
        index_of(t, t[k].drive(), t[k].ident()) == k,
        get(t, t[k].drive(), t[k].ident()) == Some(t[k]),
{
    let d = t[k].drive();
    let id = t[k].ident();
    assert(at_key(t[k], d, id));
    let j = index_of(t, d, id);
    if j != k {
        assert(at_key(t[j], t[k].drive(), t[k].ident()));
    }
}

/// What a lookup gives is a row of the table with that key.
pub proof fn lemma_get_some<R: Row>(t: Seq<R>, d: Seq<char>, id: Seq<char>)
    requires
        present(t, d, id),
    ensures
        0 <= index_of(t, d, id) < t.len(),
        at_key(t[index_of(t, d, id)], d, id),
        get(t, d, id) == Some(t[index_of(t, d, id)]),
        at_key(get(t, d, id).unwrap(), d, id),
{
}

/// The rows of a table after an upsert are the new row and the rows of the
/// table with another key.
pub proof fn lemma_put_rows<R: Row>(t: Seq<R>, r: R)
    requires
        unique(t),
    ensures
        put(t, r).contains(r),
        forall|k: int|
            0 <= k < put(t, r).len() ==> (#[trigger] put(t, r)[k]) == r || (t.contains(put(t, r)[k])
                && !at_key(put(t, r)[k], r.drive(), r.ident())),
        forall|k: int|
            0 <= k < t.len() && !at_key(#[trigger] t[k], r.drive(), r.ident()) ==> put(
                t,
                r,
            ).contains(t[k]),
{
    let u = put(t, r);
    let rd = r.drive();
    let rid = r.ident();
    if present(t, rd, rid) {
        let i = index_of(t, rd, rid);
        assert(u[i] == r);
        assert forall|k: int| 0 <= k < u.len() implies (#[trigger] u[k]) == r || (t.contains(u[k])
            && !at_key(u[k], rd, rid)) by {
            if k != i {
                assert(u[k] == t[k]);
                if at_key(t[k], rd, rid) {
                    assert(at_key(t[k], t[i].drive(), t[i].ident()));
                }
            }
        }
        assert forall|k: int| 0 <= k < t.len() && !at_key(#[trigger] t[k], rd, rid) implies u.contains(
            t[k],
        ) by {
            assert(k != i);
            assert(u[k] == t[k]);
        }
    } else {
        assert(u[t.len() as int] == r);
        assert forall|k: int| 0 <= k < u.len() implies (#[trigger] u[k]) == r || (t.contains(u[k])
            && !at_key(u[k], rd, rid)) by {
            if k < t.len() {
                assert(u[k] == t[k]);
            }
        }
        assert forall|k: int| 0 <= k < t.len() && !at_key(#[trigger] t[k], rd, rid) implies u.contains(
            t[k],
        ) by {
            assert(u[k] == t[k]);
        }
    }
}

/// An upsert keeps the keys unique, makes the row what a lookup by its key
/// gives, and leaves every other lookup as it was.
pub proof fn lemma_put<R: Row>(t: Seq<R>, r: R)
    requires
        unique(t),
    ensures
        unique(put(t, r)),
        get(put(t, r), r.drive(), r.ident()) == Some(r),
        forall|d: Seq<char>, id: Seq<char>|
            !at_key(r, d, id) ==> #[trigger] get(put(t, r), d, id) == get(t, d, id),
        forall|d: Seq<char>, id: Seq<char>|
            #[trigger] present(put(t, r), d, id) <==> (at_key(r, d, id) || present(t, d, id)),
        forall|k: int|
            0 <= k < put(t, r).len() ==> (#[trigger] put(t, r)[k]) == r || (t.contains(put(t, r)[k])
                && !at_key(put(t, r)[k], r.drive(), r.ident())),
        forall|k: int|
            0 <= k < t.len() && !at_key(#[trigger] t[k], r.drive(), r.ident()) ==> put(
                t,
                r,
            ).contains(t[k]),
{
    let u = put(t, r);
    lemma_put_rows(t, r);
    let rd = r.drive();
    let rid = r.ident();
    if present(t, rd, rid) {
        let k = index_of(t, rd, rid);
        assert(u.len() == t.len());
        assert forall|i: int, j: int| 0 <= i < u.len() && 0 <= j < u.len() && i != j implies !at_key(
            #[trigger] u[j],
            (#[trigger] u[i]).drive(),
            u[i].ident(),
        ) by {
            assert(at_key(t[k], rd, rid));
            if at_key(u[j], u[i].drive(), u[i].ident()) {
                assert(at_key(t[j], t[i].drive(), t[i].ident()));
            }
        }
        assert(u[k] == r);
        lemma_get_at(u, k);
        assert forall|d: Seq<char>, id: Seq<char>| !at_key(r, d, id) implies #[trigger] get(
            u,
            d,
            id,
        ) == get(t, d, id) by {
            if present(t, d, id) {
                let j = index_of(t, d, id);
                assert(j != k);
                assert(u[j] == t[j]);
                lemma_get_at(u, j);
            } else if present(u, d, id) {
                let j = index_of(u, d, id);
                assert(j != k);
                assert(at_key(t[j], d, id));
            }
        }
        assert forall|d: Seq<char>, id: Seq<char>| #[trigger] present(u, d, id) <==> (at_key(r, d, id)
            || present(t, d, id)) by {
            if present(u, d, id) {
                let j = index_of(u, d, id);
                if j != k {
                    assert(at_key(t[j], d, id));
                }
            }
            if present(t, d, id) {
                let j = index_of(t, d, id);
                if j != k {
                    assert(at_key(u[j], d, id));
                } else {
                    assert(at_key(u[k], d, id));
                }
            }
            if at_key(r, d, id) {
                assert(at_key(u[k], d, id));
            }
        }
    } else {
        let k = t.len() as int;
        assert(u.len() == t.len() + 1);
        assert(u[k] == r);
        assert forall|i: int, j: int| 0 <= i < u.len() && 0 <= j < u.len() && i != j implies !at_key(
            #[trigger] u[j],
            (#[trigger] u[i]).drive(),
            u[i].ident(),
        ) by {
            if at_key(u[j], u[i].drive(), u[i].ident()) {
                if i < k && j < k {
                    assert(at_key(t[j], t[i].drive(), t[i].ident()));
                } else if i == k {
                    assert(at_key(t[j], rd, rid));
                } else {
                    assert(at_key(t[i], rd, rid));
                }
            }
        }
        lemma_get_at(u, k);
        assert forall|d: Seq<char>, id: Seq<char>| !at_key(r, d, id) implies #[trigger] get(
            u,
            d,
            id,
        ) == get(t, d, id) by {
            if present(t, d, id) {
                let j = index_of(t, d, id);
                assert(u[j] == t[j]);
                lemma_get_at(u, j);
            } else if present(u, d, id) {
                let j = index_of(u, d, id);
                assert(j != k);
                assert(at_key(t[j], d, id));
            }
        }
        assert forall|d: Seq<char>, id: Seq<char>| #[trigger] present(u, d, id) <==> (at_key(r, d, id)
            || present(t, d, id)) by {
            if present(u, d, id) {
                let j = index_of(u, d, id);
                if j != k {
                    assert(at_key(t[j], d, id));
                }
            }
            if present(t, d, id) {
                let j = index_of(t, d, id);
                assert(at_key(u[j], d, id));
            }
            if at_key(r, d, id) {
                assert(at_key(u[k], d, id));
            }
        }
    }
}

/// Every row that a filter keeps is a row of the table, and the rows keep
/// their order.
pub proof fn lemma_filter_rows<R>(t: Seq<R>, keep: spec_fn(R) -> bool)
    ensures
        forall|i: int|
            0 <= i < t.filter(keep).len() ==> keep(#[trigger] t.filter(keep)[i]) && t.contains(
                t.filter(keep)[i],
            ),
        forall|i: int| 0 <= i < t.len() && keep(t[i]) ==> t.filter(keep).contains(#[trigger] t[i]),
        t.filter(keep).len() <= t.len(),
    decreases t.len(),
{
    reveal(Seq::filter);
    let out = t.filter(keep);
    if t.len() > 0 {
        let t0 = t.drop_last();
        let x = t.last();
        lemma_filter_rows(t0, keep);
        let out0 = t0.filter(keep);
        assert forall|i: int| 0 <= i < out.len() implies keep(#[trigger] out[i]) && t.contains(
            out[i],
        ) by {
            if i < out0.len() {
                assert(out[i] == out0[i]);
                assert(t0.contains(out0[i]));
                let j = choose|j: int| 0 <= j < t0.len() && t0[j] == out0[i];
                assert(t[j] == out[i]);
            } else {
                assert(out[i] == x);
                assert(t[t.len() - 1] == x);
            }
        }
        assert forall|i: int| 0 <= i < t.len() && keep(t[i]) implies out.contains(
            #[trigger] t[i],
        ) by {
            if i < t0.len() {
                assert(t0[i] == t[i]);
                assert(out0.contains(t0[i]));
                let j = choose|j: int| 0 <= j < out0.len() && out0[j] == t0[i];
                assert(out[j] == t[i]);
            } else {
                assert(out[out.len() - 1] == t[i]);
            }
        }
    }
}

/// A filter keeps the keys unique; a lookup in the filtered table gives the
/// row of the table if the filter keeps it, and nothing otherwise.
pub proof fn lemma_filter_get<R: Row>(t: Seq<R>, keep: spec_fn(R) -> bool)
    requires
        unique(t),
    ensures
        unique(t.filter(keep)),
        forall|d: Seq<char>, id: Seq<char>| #[trigger]
            get(t.filter(keep), d, id) == (match get(t, d, id) {
                Some(r) => if keep(r) {
                    Some(r)
                } else {
                    None
                },
                None => None,
            }),
        forall|d: Seq<char>, id: Seq<char>| #[trigger]
            present(t.filter(keep), d, id) <==> (present(t, d, id) && keep(get(t, d, id).unwrap())),
    decreases t.len(),
{
    reveal(Seq::filter);
    let out = t.filter(keep);
    if t.len() == 0 {
        assert forall|d: Seq<char>, id: Seq<char>| #[trigger]
            get(out, d, id) == (match get(t, d, id) {
                Some(r) => if keep(r) {
                    Some(r)
                } else {
                    None
                },
                None => None,
            }) by {}
    } else {
        let t0 = t.drop_last();
        let x = t.last();
        let last = t.len() - 1;
        assert(unique(t0)) by {
            assert forall|i: int, j: int|
                0 <= i < t0.len() && 0 <= j < t0.len() && i != j implies !at_key(
                #[trigger] t0[j],
                (#[trigger] t0[i]).drive(),
                t0[i].ident(),
            ) by {
                assert(t0[i] == t[i] && t0[j] == t[j]);
            }
        }
        lemma_filter_get(t0, keep);
        lemma_filter_rows(t0, keep);
        let out0 = t0.filter(keep);
        // the last row's key does not occur in the shorter table
        assert(!present(t0, x.drive(), x.ident())) by {
            if present(t0, x.drive(), x.ident()) {
                let j = index_of(t0, x.drive(), x.ident());
                assert(t0[j] == t[j]);
                assert(at_key(t[j], t[last].drive(), t[last].ident()));
                assert(at_key(t[last], t[j].drive(), t[j].ident()));
            }
        }
        assert(!present(out0, x.drive(), x.ident()));
        assert(unique(out)) by {
            if keep(x) {
                assert(out == out0.push(x));
                assert forall|i: int, j: int|
                    0 <= i < out.len() && 0 <= j < out.len() && i != j implies !at_key(
                    #[trigger] out[j],
                    (#[trigger] out[i]).drive(),
                    out[i].ident(),
                ) by {
                    if at_key(out[j], out[i].drive(), out[i].ident()) {
                        if i < out0.len() && j < out0.len() {
                            assert(at_key(out0[j], out0[i].drive(), out0[i].ident()));
                        } else if i == out0.len() {
                            assert(at_key(out0[j], x.drive(), x.ident()));
                        } else {
                            assert(at_key(out0[i], x.drive(), x.ident()));
                        }
                    }
                }
            }
        }
        assert forall|d: Seq<char>, id: Seq<char>| #[trigger]
            get(out, d, id) == (match get(t, d, id) {
                Some(r) => if keep(r) {
                    Some(r)
                } else {
                    None
                },
                None => None,
            }) by {
            if at_key(x, d, id) {
                lemma_get_at(t, last);
                if keep(x) {
                    assert(out[out0.len() as int] == x);
                    lemma_get_at(out, out0.len() as int);
                } else {
                    assert(out == out0);
                }
            } else {
                // the lookup in t agrees with the lookup in t0
                if present(t0, d, id) {
                    let j = index_of(t0, d, id);
                    assert(t[j] == t0[j]);
                    lemma_get_at(t, j);
                    lemma_get_at(t0, j);
                } else if present(t, d, id) {
                    let j = index_of(t, d, id);
                    assert(j != last);
                    assert(at_key(t0[j], d, id));
                }
                assert(get(t, d, id) == get(t0, d, id));
                if keep(x) {
                    if present(out0, d, id) {
                        let j = index_of(out0, d, id);
                        assert(out[j] == out0[j]);
                        lemma_get_at(out, j);
                        lemma_get_at(out0, j);
                    } else if present(out, d, id) {
                        let j = index_of(out, d, id);
                        assert(j != out0.len());
                        assert(at_key(out0[j], d, id));
                    }
                    assert(get(out, d, id) == get(out0, d, id));
                }
            }
        }
        assert forall|d: Seq<char>, id: Seq<char>| #[trigger]
            present(out, d, id) <==> (present(t, d, id) && keep(get(t, d, id).unwrap())) by {
            let g = get(out, d, id);
            let h = get(t, d, id);
            assert(g == (match h {
                Some(r) => if keep(r) {
                    Some(r)
                } else {
                    None
                },
                None => None,
            }));
        }
    }
}

} // verus!
