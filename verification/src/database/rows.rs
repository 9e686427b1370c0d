//! Tables in memory: vectors of rows, searched by key.

use vstd::prelude::*;
use crate::model::{ChangedFile, ChangedFolder, Drive, File, Folder};
use crate::database::tables::{
    at_key,
    get,
    in_drive,
    index_of,
    lemma_get_at,
    present,
    put,
    spared,
    unique,
    without,
    Row,
};

verus! {

/// A row in memory, with its key at hand.
pub trait Keyed: Sized + View where Self::V: Row {
    /// The drive that owns the row.
    fn key_drive(&self) -> (r: &String)
        ensures
            r@ == self@.drive(),
    ;

    /// The id of the row within its drive.
    fn key_id(&self) -> (r: &String)
        ensures
            r@ == self@.ident(),
    ;

    /// A copy of the row.
    fn copy(&self) -> (r: Self)
        ensures
            r == *self,
    ;

    /// Whether the two rows have the same value.
    fn same(&self, other: &Self) -> (r: bool)
        ensures
            r == (self@ == other@),
    ;
}

/// Whether two optional strings hold the same text, or both none.
fn same_opt(a: &Option<String>, b: &Option<String>) -> (r: bool)
    ensures
        r == (crate::model::folder::opt_view(*a) == crate::model::folder::opt_view(*b)),
{
    match (a, b) {
        (Some(x), Some(y)) => *x == *y,
        (None, None) => true,
        _ => false,
    }
}

/// Whether two folders are the same row.
pub fn same_folder(a: &Folder, b: &Folder) -> (r: bool)
    ensures
        r == (a@ == b@),
{
    a.id == b.id && a.drive_id == b.drive_id && a.name == b.name && a.trashed == b.trashed
        && same_opt(&a.parent, &b.parent)
}

/// Whether two files are the same row.
pub fn same_file(a: &File, b: &File) -> (r: bool)
    ensures
        r == (a@ == b@),
{
    a.id == b.id && a.drive_id == b.drive_id && a.name == b.name && a.trashed == b.trashed
        && a.parent == b.parent && a.md5 == b.md5 && a.size == b.size
}

impl Keyed for Drive {
    fn key_drive(&self) -> (r: &String) {
        &self.id
    }

    fn key_id(&self) -> (r: &String) {
        &self.id
    }

    fn copy(&self) -> (r: Self) {
        self.clone()
    }

    fn same(&self, other: &Self) -> (r: bool) {
        self.id == other.id && self.page_token == other.page_token
    }
}

impl Keyed for Folder {
    fn key_drive(&self) -> (r: &String) {
        &self.drive_id
    }

    fn key_id(&self) -> (r: &String) {
        &self.id
    }

    fn copy(&self) -> (r: Self) {
        self.clone()
    }

    fn same(&self, other: &Self) -> (r: bool) {
        same_folder(self, other)
    }
}

impl Keyed for File {
    fn key_drive(&self) -> (r: &String) {
        &self.drive_id
    }

    fn key_id(&self) -> (r: &String) {
        &self.id
    }

    fn copy(&self) -> (r: Self) {
        self.clone()
    }

    fn same(&self, other: &Self) -> (r: bool) {
        same_file(self, other)
    }
}

impl Keyed for ChangedFolder {
    fn key_drive(&self) -> (r: &String) {
        match self {
            ChangedFolder::Created(f) => &f.drive_id,
            ChangedFolder::Deleted(f) => &f.drive_id,
        }
    }

    fn key_id(&self) -> (r: &String) {
        match self {
            ChangedFolder::Created(f) => &f.id,
            ChangedFolder::Deleted(f) => &f.id,
        }
    }

    fn copy(&self) -> (r: Self) {
        match self {
            ChangedFolder::Created(f) => ChangedFolder::Created(f.clone()),
            ChangedFolder::Deleted(f) => ChangedFolder::Deleted(f.clone()),
        }
    }

    fn same(&self, other: &Self) -> (r: bool) {
        match (self, other) {
            (ChangedFolder::Created(f), ChangedFolder::Created(g)) => same_folder(f, g),
            (ChangedFolder::Deleted(f), ChangedFolder::Deleted(g)) => same_folder(f, g),
            _ => false,
        }
    }
}

impl Keyed for ChangedFile {
    fn key_drive(&self) -> (r: &String) {
        match self {
            ChangedFile::Created(f) => &f.drive_id,
            ChangedFile::Deleted(f) => &f.drive_id,
        }
    }

    fn key_id(&self) -> (r: &String) {
        match self {
            ChangedFile::Created(f) => &f.id,
            ChangedFile::Deleted(f) => &f.id,
        }
    }

    fn copy(&self) -> (r: Self) {
        match self {
            ChangedFile::Created(f) => ChangedFile::Created(f.clone()),
            ChangedFile::Deleted(f) => ChangedFile::Deleted(f.clone()),
        }
    }

    fn same(&self, other: &Self) -> (r: bool) {
        match (self, other) {
            (ChangedFile::Created(f), ChangedFile::Created(g)) => same_file(f, g),
            (ChangedFile::Deleted(f), ChangedFile::Deleted(g)) => same_file(f, g),
            _ => false,
        }
    }
}

/// The values of the rows of a table in memory.
pub open spec fn rows<T: View>(v: Seq<T>) -> Seq<T::V> {
    Seq::new(v.len(), |i: int| v[i]@)
}

/// The position of the row with key `(d, id)`, if the table holds one.
pub fn find<T: Keyed>(v: &Vec<T>, d: &String, id: &String) -> (r: Option<usize>) where T::V: Row
    ensures
        match r {
            Some(k) => k < v.len() && at_key(v[k as int]@, d@, id@) && present(rows(v@), d@, id@),
            None => !present(rows(v@), d@, id@),
        },
        unique(rows(v@)) ==> (r matches Some(k) ==> index_of(rows(v@), d@, id@) == k && get(
            rows(v@),
            d@,
            id@,
        ) == Some(v[k as int]@)),
{
    let mut i: usize = 0;
    while i < v.len()
        invariant
            i <= v.len(),
            forall|k: int| 0 <= k < i ==> !at_key(#[trigger] rows(v@)[k], d@, id@),
        decreases v.len() - i,
    {
        if *v[i].key_drive() == *d && *v[i].key_id() == *id {
            proof {
                assert(rows(v@)[i as int] == v[i as int]@);
                assert(at_key(rows(v@)[i as int], d@, id@));
                if unique(rows(v@)) {
                    lemma_get_at(rows(v@), i as int);
                }
            }
            return Some(i);
        }
        i += 1;
    }
    None
}

/// A copy of the table.
pub fn copy_rows<T: Keyed>(v: &Vec<T>) -> (r: Vec<T>) where T::V: Row
    ensures
        r@ == v@,
{
    let mut out: Vec<T> = Vec::new();
    let mut i: usize = 0;
    while i < v.len()
        invariant
            i <= v.len(),
            out@ == v@.take(i as int),
        decreases v.len() - i,
    {
        out.push(v[i].copy());
        proof {
            assert(v@.take(i as int).push(v@[i as int]) =~= v@.take(i + 1));
        }
        i += 1;
    }
    proof {
        assert(v@.take(v.len() as int) =~= v@);
    }
    out
}

/// Upserts a row: overwrites the row with the same key, or appends.
pub fn upsert<T: Keyed>(v: &mut Vec<T>, row: T) where T::V: Row
    requires
        unique(rows(old(v)@)),
    ensures
        rows(final(v)@) == put(rows(old(v)@), row@),
{
    let found = find(v, row.key_drive(), row.key_id());
    match found {
        Some(k) => {
            v.set(k, row);
            proof {
                assert(rows(v@) =~= put(rows(old(v)@), row@));
            }
        },
        None => {
            v.push(row);
            proof {
                assert(rows(v@) =~= put(rows(old(v)@), row@));
            }
        },
    }
}

/// The rows of the table that belong to drive `d`, and the others.
pub fn split_drive<T: Keyed>(v: &Vec<T>, d: &String) -> (r: (Vec<T>, Vec<T>)) where T::V: Row
    ensures
        rows(r.0@) == rows(v@).filter(in_drive(d@)),
        rows(r.1@) == without(rows(v@), in_drive(d@)),
{
    let mut mine: Vec<T> = Vec::new();
    let mut rest: Vec<T> = Vec::new();
    let mut i: usize = 0;
    proof {
        reveal(Seq::filter);
        assert(rows(v@).take(0) =~= Seq::<T::V>::empty());
    }
    while i < v.len()
        invariant
            i <= v.len(),
            rows(mine@) == rows(v@).take(i as int).filter(in_drive(d@)),
            rows(rest@) == rows(v@).take(i as int).filter(spared(in_drive(d@))),
        decreases v.len() - i,
    {
        proof {
            reveal(Seq::filter);
            let t = rows(v@).take(i + 1);
            assert(t.drop_last() =~= rows(v@).take(i as int));
            assert(t.last() == v@[i as int]@);
        }
        if *v[i].key_drive() == *d {
            mine.push(v[i].copy());
            proof {
                assert(rows(mine@) =~= rows(v@).take(i + 1).filter(in_drive(d@)));
            }
        } else {
            rest.push(v[i].copy());
            proof {
                assert(rows(rest@) =~= rows(v@).take(i + 1).filter(spared(in_drive(d@))));
            }
        }
        i += 1;
    }
    proof {
        assert(rows(v@).take(v.len() as int) =~= rows(v@));
    }
    (mine, rest)
}

/// Whether two tables hold the same rows in the same order.
pub fn same_rows<T: Keyed>(a: &Vec<T>, b: &Vec<T>) -> (r: bool) where T::V: Row
    ensures
        r == (rows(a@) == rows(b@)),
{
    if a.len() != b.len() {
        proof {
            assert(rows(a@).len() != rows(b@).len());
        }
        return false;
    }
    let mut i: usize = 0;
    while i < a.len()
        invariant
            i <= a.len(),
            a.len() == b.len(),
            forall|k: int| 0 <= k < i ==> rows(a@)[k] == rows(b@)[k],
        decreases a.len() - i,
    {
        if !a[i].same(&b[i]) {
            proof {
                assert(rows(a@)[i as int] == a[i as int]@);
                assert(rows(b@)[i as int] == b[i as int]@);
            }
            return false;
        }
        proof {
            assert(rows(a@)[i as int] == a[i as int]@);
            assert(rows(b@)[i as int] == b[i as int]@);
        }
        i += 1;
    }
    proof {
        assert(rows(a@) =~= rows(b@));
    }
    true
}

} // verus!
