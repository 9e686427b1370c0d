//! The folder tree: every folder reaches the root of its drive by following
//! parents, and what follows from that.

use vstd::prelude::*;
use crate::model::FolderView;
use crate::database::tables::{
    at_key,
    get,
    index_of,
    lemma_filter_get,
    lemma_get_some,
    lemma_put,
    present,
    put,
    spared,
    unique,
    without,
};

verus! {

/// The folder that `f` names as its parent, if the table holds it.
pub open spec fn parent_of(fs: Seq<FolderView>, f: FolderView) -> Option<FolderView> {
    match f.parent {
        Some(p) => get(fs, f.drive_id, p),
        None => None,
    }
}

/// Following parents from `f` ends at the root of its drive after at most
/// `n` steps: at a folder without a parent whose id is the drive's.
pub open spec fn climbs(fs: Seq<FolderView>, f: FolderView, n: nat) -> bool
    decreases n,
{
    match f.parent {
        None => f.id == f.drive_id,
        Some(p) => n > 0 && (match get(fs, f.drive_id, p) {
            Some(g) => climbs(fs, g, (n - 1) as nat),
            None => false,
        }),
    }
}

/// Following parents from `f` ends at the root of its drive.
pub open spec fn rooted(fs: Seq<FolderView>, f: FolderView) -> bool {
    exists|n: nat| climbs(fs, f, n)
}

/// A number of steps within which `f` reaches the root.
pub open spec fn height(fs: Seq<FolderView>, f: FolderView) -> nat {
    choose|n: nat| climbs(fs, f, n)
}

/// The tree invariant: every folder of the table reaches the root of its
/// drive. So each folder is the root (no parent, the drive's id) or has a
/// parent in the table, in the same drive, and no chain of parents runs in
/// a circle.
pub open spec fn tree_ok(fs: Seq<FolderView>) -> bool {
    forall|k: int| 0 <= k < fs.len() ==> rooted(fs, #[trigger] fs[k])
}

/// Following parents from `f`, itself included, meets the id `r` within `n`
/// steps.
pub open spec fn descends(fs: Seq<FolderView>, f: FolderView, r: Seq<char>, n: nat) -> bool
    decreases n,
{
    f.id == r || (n > 0 && (match parent_of(fs, f) {
        Some(g) => descends(fs, g, r, (n - 1) as nat),
        None => false,
    }))
}

/// `f` is the folder with id `r` or lies below it.
pub open spec fn under(fs: Seq<FolderView>, f: FolderView, r: Seq<char>) -> bool {
    exists|n: nat| descends(fs, f, r, n)
}

/// The names from the top of the chain of parents down to `f`, following
/// at most `n` parents.
pub open spec fn trail(fs: Seq<FolderView>, f: FolderView, n: nat) -> Seq<Seq<char>>
    decreases n,
{
    match parent_of(fs, f) {
        Some(g) => if n > 0 {
            trail(fs, g, (n - 1) as nat).push(f.name)
        } else {
            seq![f.name]
        },
        None => seq![f.name],
    }
}

/// The names from the root of the drive down to `f`.
pub open spec fn names_to(fs: Seq<FolderView>, f: FolderView) -> Seq<Seq<char>> {
    trail(fs, f, height(fs, f))
}

/// More steps do no harm.
pub proof fn lemma_climbs_more(fs: Seq<FolderView>, f: FolderView, n: nat, m: nat)
    requires
        climbs(fs, f, n),
        n <= m,
    ensures
        climbs(fs, f, m),
    decreases n,
{
    match f.parent {
        None => {},
        Some(p) => {
            let g = get(fs, f.drive_id, p).unwrap();
            lemma_climbs_more(fs, g, (n - 1) as nat, (m - 1) as nat);
        },
    }
}

/// The names on the way to the root do not depend on the number of steps
/// allowed, once it suffices.
pub proof fn lemma_trail_fuel(fs: Seq<FolderView>, f: FolderView, n: nat, m: nat)
    requires
        climbs(fs, f, n),
        climbs(fs, f, m),
    ensures
        trail(fs, f, n) == trail(fs, f, m),
    decreases n,
{
    match f.parent {
        None => {},
        Some(p) => {
            let g = get(fs, f.drive_id, p).unwrap();
            lemma_trail_fuel(fs, g, (n - 1) as nat, (m - 1) as nat);
        },
    }
}

/// One step up: a folder that reaches the root within `n` steps is the
/// root, or its parent is in the table, in the same drive, and reaches the
/// root within `n - 1` steps; the names down to the folder are those down
/// to its parent and then its own.
pub proof fn lemma_step(fs: Seq<FolderView>, f: FolderView, n: nat)
    requires
        climbs(fs, f, n),
    ensures
        rooted(fs, f),
        names_to(fs, f) == trail(fs, f, n),
        f.parent is None ==> f.id == f.drive_id && names_to(fs, f) == seq![f.name],
        f.parent matches Some(p) ==> {
            &&& n > 0
            &&& present(fs, f.drive_id, p)
            &&& parent_of(fs, f) matches Some(g)
            &&& at_key(g, f.drive_id, p)
            &&& climbs(fs, g, (n - 1) as nat)
            &&& names_to(fs, f) == names_to(fs, g).push(f.name)
        },
{
    lemma_trail_fuel(fs, f, n, height(fs, f));
    match f.parent {
        None => {},
        Some(p) => {
            lemma_get_some(fs, f.drive_id, p);
            let g = get(fs, f.drive_id, p).unwrap();
            lemma_trail_fuel(fs, g, (n - 1) as nat, height(fs, g));
        },
    }
}

/// A folder with the id `r` is under `r`; the root is under nothing else;
/// any other folder is under `r` exactly if its parent is.
pub proof fn lemma_under_step(fs: Seq<FolderView>, f: FolderView, r: Seq<char>)
    ensures
        f.id == r ==> under(fs, f, r),
        f.id != r && parent_of(fs, f) is None ==> !under(fs, f, r),
        f.id != r && parent_of(fs, f) is Some ==> (under(fs, f, r) <==> under(
            fs,
            parent_of(fs, f).unwrap(),
            r,
        )),
{
    if f.id == r {
        assert(descends(fs, f, r, 0));
    } else {
        match parent_of(fs, f) {
            None => {
                assert forall|n: nat| !descends(fs, f, r, n) by {}
            },
            Some(g) => {
                if under(fs, f, r) {
                    let n = choose|n: nat| descends(fs, f, r, n);
                    assert(descends(fs, g, r, (n - 1) as nat));
                }
                if under(fs, g, r) {
                    let n = choose|n: nat| descends(fs, g, r, n);
                    assert(descends(fs, f, r, n + 1));
                }
            },
        }
    }
}

/// A set of folders that is closed under taking parents, and whose parents
/// a second table holds unchanged, keeps its chains in the second table.
pub open spec fn chains_kept(
    fs: Seq<FolderView>,
    fs2: Seq<FolderView>,
    stable: spec_fn(FolderView) -> bool,
) -> bool {
    forall|g: FolderView| #[trigger]
        stable(g) && parent_of(fs, g) is Some ==> stable(parent_of(fs, g).unwrap()) && parent_of(
            fs2,
            g,
        ) == parent_of(fs, g)
}

/// Where the chains above a folder are kept, the folder reaches the root in
/// the second table as in the first, by the same names.
pub proof fn lemma_frame(
    fs: Seq<FolderView>,
    fs2: Seq<FolderView>,
    stable: spec_fn(FolderView) -> bool,
    f: FolderView,
    n: nat,
)
    requires
        chains_kept(fs, fs2, stable),
        stable(f),
        climbs(fs, f, n),
    ensures
        climbs(fs2, f, n),
        trail(fs2, f, n) == trail(fs, f, n),
        names_to(fs2, f) == names_to(fs, f),
    decreases n,
{
    match f.parent {
        None => {},
        Some(p) => {
            let g = get(fs, f.drive_id, p).unwrap();
            assert(parent_of(fs, f) == Some(g));
            assert(stable(g));
            assert(parent_of(fs2, f) == Some(g));
            lemma_frame(fs, fs2, stable, g, (n - 1) as nat);
        },
    }
    lemma_step(fs, f, n);
    lemma_step(fs2, f, n);
}

/// Whether the row `x` may be upserted: it is a root, or its parent is in
/// the table, in its drive, and does not lie at or below the place that `x`
/// takes.
pub open spec fn can_attach(fs: Seq<FolderView>, x: FolderView) -> bool {
    match x.parent {
        None => x.id == x.drive_id,
        Some(p) => match get(fs, x.drive_id, p) {
            Some(g) => !under(fs, g, x.id),
            None => false,
        },
    }
}

/// The folders that an upsert of `x` leaves where they are: those that do
/// not lie at or below the place that `x` takes.
pub open spec fn aside(fs: Seq<FolderView>, x: FolderView) -> spec_fn(FolderView) -> bool {
    |g: FolderView| !(g.drive_id == x.drive_id && under(fs, g, x.id))
}

/// The chains of the folders that an upsert leaves aside are kept.
pub proof fn lemma_put_keeps_chains(fs: Seq<FolderView>, x: FolderView)
    requires
        unique(fs),
    ensures
        chains_kept(fs, put(fs, x), aside(fs, x)),
{
    let fs2 = put(fs, x);
    let stable = aside(fs, x);
    assert forall|g: FolderView| #[trigger] stable(g) && parent_of(fs, g) is Some implies stable(
        parent_of(fs, g).unwrap(),
    ) && parent_of(fs2, g) == parent_of(fs, g) by {
        let p = g.parent.unwrap();
        let h = get(fs, g.drive_id, p).unwrap();
        lemma_get_some(fs, g.drive_id, p);
        lemma_under_step(fs, g, x.id);
        lemma_under_step(fs, h, x.id);
        lemma_put(fs, x);
        assert(stable(h));
        assert(!at_key(x, g.drive_id, p));
    }
}

/// After an upsert of `x`, a folder that reached the root before still
/// does: by its old chain, or through `x`.
pub proof fn lemma_moved(fs: Seq<FolderView>, x: FolderView, hx: nat, f: FolderView, n: nat)
    requires
        unique(fs),
        climbs(put(fs, x), x, hx),
        climbs(fs, f, n),
        !at_key(f, x.drive_id, x.id),
    ensures
        rooted(put(fs, x), f),
    decreases n,
{
    let fs2 = put(fs, x);
    match f.parent {
        None => {
            assert(climbs(fs2, f, 0));
        },
        Some(p) => {
            let g = get(fs, f.drive_id, p).unwrap();
            lemma_get_some(fs, f.drive_id, p);
            lemma_put(fs, x);
            if at_key(x, f.drive_id, p) {
                assert(get(fs2, f.drive_id, p) == Some(x));
                assert(climbs(fs2, f, hx + 1));
            } else {
                assert(get(fs2, f.drive_id, p) == Some(g));
                lemma_moved(fs, x, hx, g, (n - 1) as nat);
                let m = height(fs2, g);
                assert(climbs(fs2, f, m + 1));
            }
        },
    }
}

/// An upsert that may be made keeps the tree invariant, and the names down
/// to every folder that it leaves aside.
pub proof fn lemma_put_tree(fs: Seq<FolderView>, x: FolderView)
    requires
        unique(fs),
        tree_ok(fs),
        can_attach(fs, x),
    ensures
        tree_ok(put(fs, x)),
        rooted(put(fs, x), x),
        forall|k: int|
            0 <= k < fs.len() && aside(fs, x)(#[trigger] fs[k]) ==> names_to(put(fs, x), fs[k])
                == names_to(fs, fs[k]),
{
    let fs2 = put(fs, x);
    let stable = aside(fs, x);
    lemma_put_keeps_chains(fs, x);
    lemma_put(fs, x);
    match x.parent {
        None => {
            assert(climbs(fs2, x, 0));
        },
        Some(p) => {
            lemma_get_some(fs, x.drive_id, p);
            let parent = get(fs, x.drive_id, p).unwrap();
            assert(rooted(fs, fs[index_of(fs, x.drive_id, p)]));
            let n = height(fs, parent);
            lemma_frame(fs, fs2, stable, parent, n);
            lemma_under_step(fs, parent, x.id);
            assert(!at_key(x, x.drive_id, p));
            assert(get(fs2, x.drive_id, p) == Some(parent));
            assert(climbs(fs2, x, n + 1));
        },
    }
    let hx = height(fs2, x);
    assert forall|k: int| 0 <= k < fs2.len() implies rooted(fs2, #[trigger] fs2[k]) by {
        let f = fs2[k];
        if f != x {
            let j = choose|j: int| 0 <= j < fs.len() && fs[j] == f;
            assert(rooted(fs, fs[j]));
            lemma_moved(fs, x, hx, f, height(fs, f));
        }
    }
    assert forall|k: int| 0 <= k < fs.len() && stable(#[trigger] fs[k]) implies names_to(
        fs2,
        fs[k],
    ) == names_to(fs, fs[k]) by {
        assert(rooted(fs, fs[k]));
        lemma_frame(fs, fs2, stable, fs[k], height(fs, fs[k]));
    }
}

/// A selection of folders that takes, with a folder, every folder below it.
pub open spec fn takes_subtrees(fs: Seq<FolderView>, doomed: spec_fn(FolderView) -> bool) -> bool {
    forall|g: FolderView| #[trigger]
        spared(doomed)(g) && parent_of(fs, g) is Some ==> !doomed(parent_of(fs, g).unwrap())
}

/// Removing whole subtrees keeps the chains of the folders that stay.
pub proof fn lemma_without_keeps_chains(fs: Seq<FolderView>, doomed: spec_fn(FolderView) -> bool)
    requires
        unique(fs),
        takes_subtrees(fs, doomed),
    ensures
        chains_kept(fs, without(fs, doomed), spared(doomed)),
{
    let fs2 = without(fs, doomed);
    let stable = spared(doomed);
    lemma_filter_get(fs, stable);
    assert forall|g: FolderView| #[trigger] stable(g) && parent_of(fs, g) is Some implies stable(
        parent_of(fs, g).unwrap(),
    ) && parent_of(fs2, g) == parent_of(fs, g) by {
        let p = g.parent.unwrap();
        let h = get(fs, g.drive_id, p).unwrap();
        assert(stable(h));
        assert(get(fs2, g.drive_id, p) == Some(h));
    }
}

/// Removing whole subtrees keeps the tree invariant, and the names down to
/// every folder that stays.
pub proof fn lemma_without_tree(fs: Seq<FolderView>, doomed: spec_fn(FolderView) -> bool)
    requires
        unique(fs),
        tree_ok(fs),
        takes_subtrees(fs, doomed),
    ensures
        tree_ok(without(fs, doomed)),
        forall|k: int|
            0 <= k < fs.len() && !doomed(#[trigger] fs[k]) ==> names_to(without(fs, doomed), fs[k])
                == names_to(fs, fs[k]),
{
    let fs2 = without(fs, doomed);
    let stable = spared(doomed);
    lemma_without_keeps_chains(fs, doomed);
    crate::database::tables::lemma_filter_rows(fs, stable);
    assert forall|k: int| 0 <= k < fs2.len() implies rooted(fs2, #[trigger] fs2[k]) by {
        let f = fs2[k];
        assert(fs.contains(f));
        let j = choose|j: int| 0 <= j < fs.len() && fs[j] == f;
        assert(rooted(fs, fs[j]));
        lemma_frame(fs, fs2, stable, f, height(fs, f));
    }
    assert forall|k: int| 0 <= k < fs.len() && !doomed(#[trigger] fs[k]) implies names_to(
        fs2,
        fs[k],
    ) == names_to(fs, fs[k]) by {
        assert(rooted(fs, fs[k]));
        lemma_frame(fs, fs2, stable, fs[k], height(fs, fs[k]));
    }
}

/// The folders of drive `d` at or below the id `r`.
pub open spec fn subtree(fs: Seq<FolderView>, d: Seq<char>, r: Seq<char>) -> spec_fn(
    FolderView,
) -> bool {
    |g: FolderView| g.drive_id == d && under(fs, g, r)
}

/// The folders at or below an id form whole subtrees.
pub proof fn lemma_subtree_whole(fs: Seq<FolderView>, d: Seq<char>, r: Seq<char>)
    ensures
        takes_subtrees(fs, subtree(fs, d, r)),
{
    let doomed = subtree(fs, d, r);
    assert forall|g: FolderView| #[trigger]
        spared(doomed)(g) && parent_of(fs, g) is Some implies !doomed(
        parent_of(fs, g).unwrap(),
    ) by {
        let p = g.parent.unwrap();
        let h = get(fs, g.drive_id, p).unwrap();
        lemma_get_some(fs, g.drive_id, p);
        lemma_under_step(fs, g, r);
    }
}

/// The folders of one drive form whole subtrees.
pub proof fn lemma_drive_whole(fs: Seq<FolderView>, d: Seq<char>)
    ensures
        takes_subtrees(fs, crate::database::tables::in_drive::<FolderView>(d)),
{
    let doomed = crate::database::tables::in_drive::<FolderView>(d);
    assert forall|g: FolderView| #[trigger]
        spared(doomed)(g) && parent_of(fs, g) is Some implies !doomed(
        parent_of(fs, g).unwrap(),
    ) by {
        let p = g.parent.unwrap();
        lemma_get_some(fs, g.drive_id, p);
    }
}

} // verus!
