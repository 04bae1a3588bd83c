//! The change-set of a commit: the difference between two trees, and the
//! classification of a change-set as an unrecorded rename.
//!
//! A diff lists, in order, the paths of the old tree that are gone or whose
//! content changed, then the paths of the new tree that the old tree lacked.
//! A deletion carries the old path, an addition the new path, a modification
//! both.

use vstd::prelude::*;

use crate::bytes::clone_bytes;
use crate::model::{lemma_tree_entry_at, tree_entry_at, tree_find, tree_has, tree_wf, Tree,
    TreeEntry};

verus! {

/// The kind of one change between two trees.
#[derive(Clone, Copy, PartialEq, Eq, Structural, Debug)]
pub enum Delta {
    Added,
    Deleted,
    Modified,
    Renamed,
    Copied,
    Typechange,
}

/// One line of a diff between two trees.
pub struct ChangeEntry {
    pub status: Delta,
    pub old_path: Option<Vec<u8>>,
    pub new_path: Option<Vec<u8>>,
}

/// The mathematical value of a `ChangeEntry`.
pub ghost struct ChangeView {
    pub status: Delta,
    pub old_path: Option<Seq<u8>>,
    pub new_path: Option<Seq<u8>>,
}

impl View for ChangeEntry {
    type V = ChangeView;

    open spec fn view(&self) -> ChangeView {
        ChangeView {
            status: self.status,
            old_path: match self.old_path {
                Some(p) => Some(p@),
                None => None,
            },
            new_path: match self.new_path {
                Some(p) => Some(p@),
                None => None,
            },
        }
    }
}

/// The mathematical values of a list of change entries.
pub open spec fn views_of(d: Seq<ChangeEntry>) -> Seq<ChangeView> {
    d.map_values(|e: ChangeEntry| e@)
}

/// What an entry of the old tree contributes to the diff.
pub open spec fn old_entry_change(e: TreeEntry, new_t: Tree) -> Seq<ChangeView> {
    if !tree_has(new_t, e.path@) {
        seq![ChangeView { status: Delta::Deleted, old_path: Some(e.path@), new_path: None }]
    } else if tree_entry_at(new_t, e.path@) != (e.mode, e.oid) {
        seq![
            ChangeView {
                status: Delta::Modified,
                old_path: Some(e.path@),
                new_path: Some(e.path@),
            },
        ]
    } else {
        Seq::empty()
    }
}

/// The old-side rows of the diff, for a prefix of the old tree's entries.
pub open spec fn old_side_diff(es: Seq<TreeEntry>, new_t: Tree) -> Seq<ChangeView>
    decreases es.len(),
{
    if es.len() == 0 {
        Seq::empty()
    } else {
        old_side_diff(es.drop_last(), new_t) + old_entry_change(es.last(), new_t)
    }
}

/// What an entry of the new tree contributes to the diff.
pub open spec fn new_entry_change(e: TreeEntry, old_t: Tree) -> Seq<ChangeView> {
    if !tree_has(old_t, e.path@) {
        seq![ChangeView { status: Delta::Added, old_path: None, new_path: Some(e.path@) }]
    } else {
        Seq::empty()
    }
}

/// The new-side rows of the diff, for a prefix of the new tree's entries.
pub open spec fn new_side_diff(es: Seq<TreeEntry>, old_t: Tree) -> Seq<ChangeView>
    decreases es.len(),
{
    if es.len() == 0 {
        Seq::empty()
    } else {
        new_side_diff(es.drop_last(), old_t) + new_entry_change(es.last(), old_t)
    }
}

/// The diff of `new_t` against `old_t`.
pub open spec fn diff_of_trees(old_t: Tree, new_t: Tree) -> Seq<ChangeView> {
    old_side_diff(old_t.entries@, new_t) + new_side_diff(new_t.entries@, old_t)
}

/// Computes the diff of `new_t` against `old_t`.
pub fn tree_diff(old_t: &Tree, new_t: &Tree) -> (out: Vec<ChangeEntry>)
    requires
        tree_wf(*old_t),
        tree_wf(*new_t),
    ensures
        views_of(out@) == diff_of_trees(*old_t, *new_t),
{
    let mut out: Vec<ChangeEntry> = Vec::new();
    let mut i: usize = 0;
    while i < old_t.entries.len()
        invariant
            tree_wf(*old_t),
            tree_wf(*new_t),
            i <= old_t.entries@.len(),
            views_of(out@) =~= old_side_diff(old_t.entries@.subrange(0, i as int), *new_t),
        decreases old_t.entries@.len() - i,
    {
        let e = &old_t.entries[i];
        let ghost vprev = views_of(out@);
        match tree_find(new_t, &e.path) {
            None => {
                out.push(
                    ChangeEntry {
                        status: Delta::Deleted,
                        old_path: Some(clone_bytes(&e.path)),
                        new_path: None,
                    },
                );
            },
            Some(ix) => {
                proof {
                    lemma_tree_entry_at(*new_t, ix as int);
                }
                let ne = &new_t.entries[ix];
                if ne.mode != e.mode || ne.oid != e.oid {
                    out.push(
                        ChangeEntry {
                            status: Delta::Modified,
                            old_path: Some(clone_bytes(&e.path)),
                            new_path: Some(clone_bytes(&e.path)),
                        },
                    );
                }
            },
        }
        proof {
            assert(views_of(out@) =~= vprev + old_entry_change(old_t.entries@[i as int], *new_t));
            assert(old_t.entries@.subrange(0, i + 1).drop_last() =~= old_t.entries@.subrange(
                0,
                i as int,
            ));
            assert(old_t.entries@.subrange(0, i + 1).last() == old_t.entries@[i as int]);
            assert(views_of(out@) =~= old_side_diff(old_t.entries@.subrange(0, i + 1), *new_t));
        }
        i += 1;
    }
    proof {
        assert(old_t.entries@.subrange(0, old_t.entries@.len() as int) =~= old_t.entries@);
    }
    let ghost old_rows = views_of(out@);
    let mut j: usize = 0;
    while j < new_t.entries.len()
        invariant
            tree_wf(*old_t),
            tree_wf(*new_t),
            j <= new_t.entries@.len(),
            views_of(out@) =~= old_rows + new_side_diff(new_t.entries@.subrange(0, j as int), *old_t),
            old_rows == old_side_diff(old_t.entries@, *new_t),
        decreases new_t.entries@.len() - j,
    {
        let e = &new_t.entries[j];
        let ghost vprev = views_of(out@);
        match tree_find(old_t, &e.path) {
            None => {
                out.push(
                    ChangeEntry {
                        status: Delta::Added,
                        old_path: None,
                        new_path: Some(clone_bytes(&e.path)),
                    },
                );
            },
            Some(_) => {},
        }
        proof {
            assert(views_of(out@) =~= vprev + new_entry_change(new_t.entries@[j as int], *old_t));
            assert(new_t.entries@.subrange(0, j + 1).drop_last() =~= new_t.entries@.subrange(
                0,
                j as int,
            ));
            assert(new_t.entries@.subrange(0, j + 1).last() == new_t.entries@[j as int]);
            assert(views_of(out@) =~= old_rows + new_side_diff(
                new_t.entries@.subrange(0, j + 1),
                *old_t,
            ));
        }
        j += 1;
    }
    proof {
        assert(new_t.entries@.subrange(0, new_t.entries@.len() as int) =~= new_t.entries@);
        assert(views_of(out@) =~= diff_of_trees(*old_t, *new_t));
    }
    out
}

/// Every old-side row is a deletion or a modification, and carries an old
/// path drawn from the old tree's entries.
pub proof fn lemma_old_side_rows(es: Seq<TreeEntry>, new_t: Tree, x: int)
    requires
        0 <= x < old_side_diff(es, new_t).len(),
    ensures
        old_side_diff(es, new_t)[x].status == Delta::Deleted || old_side_diff(es, new_t)[x].status
            == Delta::Modified,
        match old_side_diff(es, new_t)[x].old_path {
            Some(p) => exists|j: int| 0 <= j < es.len() && es[j].path@ == p,
            None => false,
        },
    decreases es.len(),
{
    if es.len() > 0 {
        let pre = old_side_diff(es.drop_last(), new_t);
        if x < pre.len() {
            lemma_old_side_rows(es.drop_last(), new_t, x);
            match pre[x].old_path {
                Some(p) => {
                    let j = choose|j: int|
                        0 <= j < es.drop_last().len() && es.drop_last()[j].path@ == p;
                    assert(es[j].path@ == p);
                },
                None => {},
            }
        } else {
            assert(es[es.len() - 1].path@ == es.last().path@);
        }
    }
}

/// Every new-side row is an addition and carries a new path.
pub proof fn lemma_new_side_rows(es: Seq<TreeEntry>, old_t: Tree, x: int)
    requires
        0 <= x < new_side_diff(es, old_t).len(),
    ensures
        new_side_diff(es, old_t)[x].status == Delta::Added,
        new_side_diff(es, old_t)[x].new_path is Some,
    decreases es.len(),
{
    if es.len() > 0 {
        let pre = new_side_diff(es.drop_last(), old_t);
        if x < pre.len() {
            lemma_new_side_rows(es.drop_last(), old_t, x);
        }
    }
}

/// The change-set is exactly one deletion and one addition, in either order.
pub open spec fn rename_pattern(d: Seq<ChangeView>) -> bool {
    d.len() == 2 && ((d[0].status == Delta::Deleted && d[1].status == Delta::Added) || (d[0].status
        == Delta::Added && d[1].status == Delta::Deleted))
}

/// The deletion row of a change-set that matches the rename pattern.
pub open spec fn deleted_of(d: Seq<ChangeView>) -> ChangeView {
    if d[0].status == Delta::Deleted {
        d[0]
    } else {
        d[1]
    }
}

/// The addition row of a change-set that matches the rename pattern.
pub open spec fn added_of(d: Seq<ChangeView>) -> ChangeView {
    if d[0].status == Delta::Deleted {
        d[1]
    } else {
        d[0]
    }
}

/// Classifies a change-set: does it match the rename pattern?
pub fn is_rename_pattern(diff: &Vec<ChangeEntry>) -> (out: bool)
    ensures
        out == rename_pattern(views_of(diff@)),
{
    if diff.len() != 2 {
        return false;
    }
    let s0 = diff[0].status;
    let s1 = diff[1].status;
    (s0 == Delta::Deleted && s1 == Delta::Added) || (s0 == Delta::Added && s1 == Delta::Deleted)
}

} // verus!
