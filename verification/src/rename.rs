//! The rename normalizer: classifies one commit's change-set, patches the
//! parent tree when the change-set is an unrecorded rename, rewrites the
//! message prefix, and emits the replacement commit(s).

use vstd::prelude::*;

use crate::bytes::{bytes_eq, clone_bytes};
use crate::diff::{added_of, deleted_of, is_rename_pattern, lemma_old_side_rows, rename_pattern,
    views_of, ChangeEntry};
use crate::model::{branch_wf, commit_wf, head_wf, lemma_tree_entry_at, repo_wf, sig_like,
    tree_entry_at, tree_find, tree_has, tree_map, tree_wf, Branch, Commit, Repo, Signature, Tree,
    TreeEntry};

verus! {

/// Why a rewrite cannot proceed.
#[derive(Clone, Copy, PartialEq, Eq, Structural, Debug)]
pub enum RewriteError {
    /// The head does not stand on a local branch.
    NotOnLocalBranch,
    /// The destination branch already exists.
    DestinationExists,
    /// The starting commit is not in the store.
    UnknownRevision,
    /// A commit in the walked range has zero or several parents.
    MergeInHistory,
    /// The deletion row of a rename change-set carries no old path.
    MissingDeletedPath,
    /// The addition row of a rename change-set carries no new path.
    MissingAddedPath,
    /// The parent tree lacks the path the change-set claims is deleted.
    OldPathNotInParent,
}

/// A lower-case letter, as a byte.
pub open spec fn is_lower(b: u8) -> bool {
    97 <= b <= 122
}

/// The message starts with `l` lower-case letters followed by a colon.
pub open spec fn scope_at(m: Seq<u8>, l: int) -> bool {
    1 <= l < m.len() && m[l] == 58 && (forall|i: int| 0 <= i < l ==> is_lower(m[i]))
}

/// The message starts with a conventional scope prefix: one or more
/// lower-case letters followed by a colon.
pub open spec fn has_scope_prefix(m: Seq<u8>) -> bool {
    exists|l: int| scope_at(m, l)
}

/// Length of the scope prefix, colon excluded.
pub open spec fn scope_prefix_len(m: Seq<u8>) -> int {
    choose|l: int| scope_at(m, l)
}

/// At most one prefix length fits the scope pattern.
pub proof fn lemma_scope_unique(m: Seq<u8>, l1: int, l2: int)
    requires
        scope_at(m, l1),
        scope_at(m, l2),
    ensures
        l1 == l2,
{
    if l1 < l2 {
        assert(is_lower(m[l1]));
    }
    if l2 < l1 {
        assert(is_lower(m[l2]));
    }
}

/// The bytes of the fixed rename marker, `chore(rename): `.
pub open spec fn rename_marker() -> Seq<u8> {
    seq![99u8, 104u8, 111u8, 114u8, 101u8, 40u8, 114u8, 101u8, 110u8, 97u8, 109u8, 101u8, 41u8, 58u8, 32u8]
}

/// The message with its scope prefix (letters and colon), when one is
/// present, replaced by the rename marker; otherwise the message itself.
pub open spec fn rewritten_message(m: Seq<u8>) -> Seq<u8> {
    if has_scope_prefix(m) {
        rename_marker() + m.skip(scope_prefix_len(m) + 1)
    } else {
        m
    }
}

/// Replaces a leading scope prefix with the rename marker.
pub fn rewrite_message(m: &Vec<u8>) -> (out: Vec<u8>)
    ensures
        out@ == rewritten_message(m@),
{
    let mut l: usize = 0;
    loop
        invariant_except_break
            l <= m@.len(),
            forall|i: int| 0 <= i < l ==> is_lower(m@[i]),
        ensures
            l <= m@.len(),
            forall|i: int| 0 <= i < l ==> is_lower(m@[i]),
            l == m@.len() || !is_lower(m@[l as int]),
        decreases m@.len() - l,
    {
        if l >= m.len() {
            break;
        }
        let b = m[l];
        if !(b >= 97 && b <= 122) {
            break;
        }
        l += 1;
    }
    if l >= 1 && l < m.len() && m[l] == 58 {
        proof {
            assert(scope_at(m@, l as int));
            lemma_scope_unique(m@, scope_prefix_len(m@), l as int);
        }
        let mut out: Vec<u8> = Vec::new();
        out.push(99);
        out.push(104);
        out.push(111);
        out.push(114);
        out.push(101);
        out.push(40);
        out.push(114);
        out.push(101);
        out.push(110);
        out.push(97);
        out.push(109);
        out.push(101);
        out.push(41);
        out.push(58);
        out.push(32);
        proof {
            assert(out@ =~= rename_marker());
        }
        let mut k: usize = l + 1;
        while k < m.len()
            invariant
                l + 1 <= k <= m@.len(),
                (l as int) < m@.len(),
                out@ =~= rename_marker() + m@.subrange(l as int + 1, k as int),
            decreases m@.len() - k,
        {
            out.push(m[k]);
            k += 1;
            proof {
                assert(out@ =~= rename_marker() + m@.subrange(l as int + 1, k as int));
            }
        }
        proof {
            assert(m@.subrange(l as int + 1, m@.len() as int) =~= m@.skip(l as int + 1));
            assert(out@ =~= rewritten_message(m@));
        }
        out
    } else {
        proof {
            if has_scope_prefix(m@) {
                let lp = choose|lp: int| scope_at(m@, lp);
                if lp < l as int {
                    assert(is_lower(m@[lp]));
                } else if lp > l as int {
                    assert(l < m@.len());
                    assert(is_lower(m@[l as int]));
                }
                assert(false);
            }
        }
        clone_bytes(m)
    }
}

/// The two tree entries agree on path, mode and content id.
pub open spec fn entry_like(a: TreeEntry, b: TreeEntry) -> bool {
    a.path@ == b.path@ && a.mode == b.mode && a.oid == b.oid
}

/// Builds the rename-only tree: the parent tree with the entry at `old_path`
/// removed and re-inserted, content id and mode untouched, under `new_path`.
pub fn apply_rename(parent: &Tree, old_path: &Vec<u8>, new_path: &Vec<u8>) -> (out: Result<
    Tree,
    RewriteError,
>)
    requires
        tree_wf(*parent),
    ensures
        match out {
            Ok(t) => tree_has(*parent, old_path@) && tree_wf(t) && tree_map(t) == tree_map(
                *parent,
            ).remove(old_path@).insert(new_path@, tree_map(*parent)[old_path@]),
            Err(e) => e == RewriteError::OldPathNotInParent && !tree_has(*parent, old_path@),
        },
{
    let taken_ix = match tree_find(parent, old_path) {
        None => {
            return Err(RewriteError::OldPathNotInParent);
        },
        Some(ix) => ix,
    };
    let mode = parent.entries[taken_ix].mode;
    let oid = parent.entries[taken_ix].oid;
    proof {
        lemma_tree_entry_at(*parent, taken_ix as int);
    }
    let mut entries: Vec<TreeEntry> = Vec::new();
    let mut i: usize = 0;
    while i < parent.entries.len()
        invariant
            tree_wf(*parent),
            i <= parent.entries@.len(),
            forall|k: int|
                0 <= k < entries@.len() ==> entries@[k].path@ != old_path@ && entries@[k].path@
                    != new_path@ && exists|j: int|
                    0 <= j < i && entry_like(entries@[k], parent.entries@[j]),
            forall|j: int|
                0 <= j < i && parent.entries@[j].path@ != old_path@ && parent.entries@[j].path@
                    != new_path@ ==> exists|k: int|
                    0 <= k < entries@.len() && entries@[k].path@ == parent.entries@[j].path@,
            forall|k1: int, k2: int|
                0 <= k1 < k2 < entries@.len() ==> entries@[k1].path@ != entries@[k2].path@,
        decreases parent.entries@.len() - i,
    {
        let e = &parent.entries[i];
        let ghost eprev = entries@;
        if !bytes_eq(&e.path, old_path) && !bytes_eq(&e.path, new_path) {
            let kept = TreeEntry { path: clone_bytes(&e.path), mode: e.mode, oid: e.oid };
            proof {
                assert(entry_like(kept, parent.entries@[i as int]));
                assert forall|k: int|
                    0 <= k < entries@.len() implies entries@[k].path@ != kept.path@ by {
                    let j = choose|j: int|
                        0 <= j < i && entry_like(entries@[k], parent.entries@[j]);
                    assert(parent.entries@[j].path@ != parent.entries@[i as int].path@);
                }
            }
            entries.push(kept);
        }
        i += 1;
        proof {
            assert forall|k: int|
                0 <= k < entries@.len() implies entries@[k].path@ != old_path@ && entries@[k].path@
                != new_path@ && exists|j: int|
                0 <= j < i && entry_like(entries@[k], parent.entries@[j]) by {
                if k < eprev.len() {
                    let j = choose|j: int|
                        0 <= j < i - 1 && entry_like(eprev[k], parent.entries@[j]);
                    assert(0 <= j < i && entry_like(entries@[k], parent.entries@[j]));
                } else {
                    assert(0 <= i - 1 < i && entry_like(entries@[k], parent.entries@[i - 1]));
                }
            }
            assert forall|j: int|
                0 <= j < i && parent.entries@[j].path@ != old_path@ && parent.entries@[j].path@
                != new_path@ implies exists|k: int|
                0 <= k < entries@.len() && entries@[k].path@ == parent.entries@[j].path@ by {
                if j == i - 1 {
                    assert(entries@.len() == eprev.len() + 1);
                    assert(entries@[entries@.len() - 1].path@ == parent.entries@[j].path@);
                } else {
                    let k = choose|k: int|
                        0 <= k < eprev.len() && eprev[k].path@ == parent.entries@[j].path@;
                    assert(entries@[k].path@ == parent.entries@[j].path@);
                }
            }
        }
    }
    let moved = TreeEntry { path: clone_bytes(new_path), mode, oid };
    let ghost filtered = entries@;
    entries.push(moved);
    let t = Tree { entries };
    proof {
        let pm = tree_map(*parent);
        let target = pm.remove(old_path@).insert(new_path@, pm[old_path@]);
        let last = t.entries@.len() - 1;
        assert(t.entries@[last].path@ == new_path@);
        assert(tree_wf(t)) by {
            assert forall|k1: int, k2: int|
                0 <= k1 < k2 < t.entries@.len() implies t.entries@[k1].path@
                != t.entries@[k2].path@ by {
                if k2 == last {
                    assert(filtered[k1].path@ != new_path@);
                }
            }
        }
        assert(tree_has(t, new_path@));
        lemma_tree_entry_at(t, last);
        assert forall|p: Seq<u8>| #[trigger] tree_map(t).dom().contains(p) implies
            target.dom().contains(p) && tree_map(t)[p] == target[p] by {
            let k = choose|k: int| 0 <= k < t.entries@.len() && t.entries@[k].path@ == p;
            lemma_tree_entry_at(t, k);
            if p == new_path@ {
                assert(tree_map(t)[p] == (mode, oid));
            } else {
                assert(k != last);
                let j = choose|j: int|
                    0 <= j < parent.entries@.len() && entry_like(filtered[k], parent.entries@[j]);
                assert(parent.entries@[j].path@ == p);
                assert(tree_has(*parent, p));
                lemma_tree_entry_at(*parent, j);
                assert(tree_map(t)[p] == pm[p]);
            }
        }
        assert forall|p: Seq<u8>| #[trigger] target.dom().contains(p) implies tree_map(
            t,
        ).dom().contains(p) by {
            if p != new_path@ {
                assert(tree_has(*parent, p));
                let j = choose|j: int|
                    0 <= j < parent.entries@.len() && parent.entries@[j].path@ == p;
                assert(exists|k: int|
                    0 <= k < filtered.len() && filtered[k].path@ == parent.entries@[j].path@);
                let k = choose|k: int| 0 <= k < filtered.len() && filtered[k].path@ == p;
                assert(t.entries@[k].path@ == p);
                assert(tree_has(t, p));
            }
        }
        assert(tree_map(t) =~= target);
    }
    Ok(t)
}

/// Content preservation: in a tree built by moving the entry at `oldp` to
/// `newp`, the content id (and mode) found under the new path is exactly
/// what the parent tree held under the old path — a rename changes the
/// path, never the content.
pub proof fn lemma_rename_preserves_content(parent: Tree, t: Tree, oldp: Seq<u8>, newp: Seq<u8>)
    requires
        tree_has(parent, oldp),
        tree_map(t) == tree_map(parent).remove(oldp).insert(newp, tree_map(parent)[oldp]),
    ensures
        tree_map(t).dom().contains(newp),
        tree_map(t)[newp] == tree_map(parent)[oldp],
{
}

/// A fresh copy of a signature.
pub fn clone_signature(s: &Signature) -> (out: Signature)
    ensures
        sig_like(out, *s),
{
    Signature { name: clone_bytes(&s.name), email: clone_bytes(&s.email), when: s.when }
}

/// Appends one commit to the store and moves the destination branch to it.
pub(crate) fn append_commit(
    r: &mut Repo,
    dest: usize,
    parent: usize,
    tree: usize,
    author: Signature,
    committer: Signature,
    message: Vec<u8>,
) -> (out: usize)
    requires
        repo_wf(*old(r)),
        (dest as int) < old(r).branches@.len(),
        (parent as int) < old(r).commits@.len(),
        (tree as int) < old(r).trees@.len(),
    ensures
        repo_wf(*final(r)),
        out as int == old(r).commits@.len(),
        final(r).commits@.len() == old(r).commits@.len() + 1,
        final(r).commits@.subrange(0, old(r).commits@.len() as int) =~= old(r).commits@,
        final(r).commits@[out as int].parents@ =~= seq![parent],
        final(r).commits@[out as int].tree == tree,
        final(r).commits@[out as int].author == author,
        final(r).commits@[out as int].committer == committer,
        final(r).commits@[out as int].message == message,
        final(r).trees@ == old(r).trees@,
        final(r).head == old(r).head,
        final(r).branches@.len() == old(r).branches@.len(),
        forall|b: int|
            0 <= b < old(r).branches@.len() && b != dest ==> final(r).branches@[b] == old(r).branches@[b],
        final(r).branches@[dest as int].name@ == old(r).branches@[dest as int].name@,
        final(r).branches@[dest as int].remote == old(r).branches@[dest as int].remote,
        final(r).branches@[dest as int].upstream == old(r).branches@[dest as int].upstream,
        final(r).branches@[dest as int].target == out,
{
    let out = r.commits.len();
    let mut parents: Vec<usize> = Vec::new();
    parents.push(parent);
    let c = Commit { parents, tree, author, committer, message };
    r.commits.push(c);
    let moved_branch = Branch {
        name: clone_bytes(&r.branches[dest].name),
        remote: r.branches[dest].remote,
        target: out,
        upstream: r.branches[dest].upstream,
    };
    r.branches.set(dest, moved_branch);
    proof {
        assert(final(r).commits@.subrange(0, old(r).commits@.len() as int) =~= old(r).commits@);
        assert forall|cc: int| 0 <= cc < final(r).commits@.len() implies commit_wf(
            *final(r),
            cc,
        ) by {
            if cc < old(r).commits@.len() {
                assert(commit_wf(*old(r), cc));
                assert(final(r).commits@[cc] == old(r).commits@[cc]);
            } else {
                assert(final(r).commits@[cc].parents@ =~= seq![parent]);
            }
        }
        assert forall|b: int| 0 <= b < final(r).branches@.len() implies branch_wf(
            *final(r),
            b,
        ) by {
            assert(branch_wf(*old(r), b));
        }
        assert forall|i: int, j: int|
            0 <= i < j < final(r).branches@.len() implies final(r).branches@[i].name@
            != final(r).branches@[j].name@ by {
            assert(old(r).branches@[i].name@ != old(r).branches@[j].name@);
        }
        assert(head_wf(*final(r)));
    }
    out
}

/// What the normalizer emitted for one replayed commit: the commit replayed
/// verbatim, or a synthetic rename commit followed by the content commit.
#[derive(Clone, Copy, PartialEq, Eq, Structural, Debug)]
pub enum Emitted {
    Unchanged(usize),
    Renamed(usize, usize),
}

/// The tree of the sole parent of commit `c`.
pub open spec fn parent_tree(r: Repo, c: int) -> Tree {
    r.trees@[r.commits@[r.commits@[c].parents@[0] as int].tree as int]
}

/// Whether a change-set that matches the rename pattern is well shaped
/// against the parent tree, and the error owed when it is not.
pub open spec fn rename_shape(d: Seq<crate::diff::ChangeView>, pt: Tree) -> Result<
    (),
    RewriteError,
> {
    match deleted_of(d).old_path {
        None => Err(RewriteError::MissingDeletedPath),
        Some(oldp) => match added_of(d).new_path {
            None => Err(RewriteError::MissingAddedPath),
            Some(newp) => if !tree_has(pt, oldp) {
                Err(RewriteError::OldPathNotInParent)
            } else {
                Ok(())
            },
        },
    }
}

/// A change-set computed from two trees is always well shaped: its deletion
/// row names a path of the old tree, its addition row names a path.
pub proof fn lemma_generated_shape_ok(old_t: Tree, new_t: Tree)
    requires
        rename_pattern(crate::diff::diff_of_trees(old_t, new_t)),
    ensures
        rename_shape(crate::diff::diff_of_trees(old_t, new_t), old_t) == Ok::<(), RewriteError>(
            (),
        ),
{
    let d = crate::diff::diff_of_trees(old_t, new_t);
    let o = crate::diff::old_side_diff(old_t.entries@, new_t);
    let nw = crate::diff::new_side_diff(new_t.entries@, old_t);
    let dx: int = if d[0].status == crate::diff::Delta::Deleted {
        0
    } else {
        1
    };
    let ax: int = if d[0].status == crate::diff::Delta::Deleted {
        1
    } else {
        0
    };
    assert(deleted_of(d) == d[dx] && d[dx].status == crate::diff::Delta::Deleted);
    assert(added_of(d) == d[ax] && d[ax].status == crate::diff::Delta::Added);
    if dx < o.len() {
        lemma_old_side_rows(old_t.entries@, new_t, dx);
        assert(d[dx] == o[dx]);
    } else {
        crate::diff::lemma_new_side_rows(new_t.entries@, old_t, dx - o.len());
        assert(d[dx] == nw[dx - o.len()]);
        assert(false);
    }
    match deleted_of(d).old_path {
        Some(p) => {
            assert(tree_has(old_t, p));
        },
        None => {
            assert(false);
        },
    }
    if ax < o.len() {
        crate::diff::lemma_old_side_rows(old_t.entries@, new_t, ax);
        assert(d[ax] == o[ax]);
        assert(false);
    } else {
        crate::diff::lemma_new_side_rows(new_t.entries@, old_t, ax - o.len());
        assert(d[ax] == nw[ax - o.len()]);
    }
}

/// Replays one commit onto `parent`: when its change-set is exactly one
/// deletion paired with one addition, first emits a synthetic commit whose
/// tree moves the deleted entry to the added path and whose message carries
/// the rename marker, then the commit's own tree under its original message;
/// otherwise replays the commit verbatim.  Every emitted commit is appended
/// to the destination branch at once.
pub fn normalize(
    r: &mut Repo,
    commit: usize,
    diff: &Vec<ChangeEntry>,
    dest: usize,
    parent: usize,
) -> (out: Result<Emitted, RewriteError>)
    requires
        repo_wf(*old(r)),
        (commit as int) < old(r).commits@.len(),
        old(r).commits@[commit as int].parents@.len() == 1,
        (dest as int) < old(r).branches@.len(),
        (parent as int) < old(r).commits@.len(),
    ensures
        ({
            let d = views_of(diff@);
            let pt = parent_tree(*old(r), commit as int);
            let orig = old(r).commits@[commit as int];
            match out {
                Err(e) => *final(r) == *old(r) && rename_pattern(d) && Err::<(), RewriteError>(e)
                    == rename_shape(d, pt),
                Ok(em) => {
                    &&& repo_wf(*final(r))
                    &&& old(r).commits@.len() <= final(r).commits@.len()
                    &&& old(r).trees@.len() <= final(r).trees@.len()
                    &&& final(r).head == old(r).head
                    &&& final(r).branches@.len() == old(r).branches@.len()
                    &&& forall|b: int|
                        0 <= b < old(r).branches@.len() && b != dest ==> final(r).branches@[b]
                            == old(r).branches@[b]
                    &&& final(r).branches@[dest as int].name@ == old(r).branches@[dest as int].name@
                    &&& final(r).branches@[dest as int].remote == old(r).branches@[dest as int].remote
                    &&& final(r).commits@.subrange(0, old(r).commits@.len() as int) == old(r).commits@
                    &&& final(r).trees@.subrange(0, old(r).trees@.len() as int) == old(r).trees@
                    &&& match em {
                        Emitted::Unchanged(id) => {
                            &&& !rename_pattern(d)
                            &&& id as int == old(r).commits@.len()
                            &&& final(r).commits@.len() == old(r).commits@.len() + 1
                            &&& final(r).trees@ == old(r).trees@
                            &&& final(r).commits@[id as int].parents@ =~= seq![parent]
                            &&& final(r).commits@[id as int].tree == orig.tree
                            &&& sig_like(final(r).commits@[id as int].author, orig.author)
                            &&& sig_like(final(r).commits@[id as int].committer, orig.committer)
                            &&& final(r).commits@[id as int].message@ == orig.message@
                            &&& final(r).branches@[dest as int].target == id
                        },
                        Emitted::Renamed(id1, id2) => {
                            &&& rename_pattern(d)
                            &&& rename_shape(d, pt) == Ok::<(), RewriteError>(())
                            &&& id1 as int == old(r).commits@.len()
                            &&& id2 as int == old(r).commits@.len() + 1
                            &&& final(r).commits@.len() == old(r).commits@.len() + 2
                            &&& final(r).commits@[id1 as int].parents@ =~= seq![parent]
                            &&& sig_like(final(r).commits@[id1 as int].author, orig.author)
                            &&& sig_like(final(r).commits@[id1 as int].committer, orig.committer)
                            &&& final(r).commits@[id1 as int].message@ == rewritten_message(
                                orig.message@,
                            )
                            &&& (final(r).commits@[id1 as int].tree as int) < final(r).trees@.len()
                            &&& tree_map(
                                final(r).trees@[final(r).commits@[id1 as int].tree as int],
                            ) == tree_map(pt).remove(deleted_of(d).old_path->Some_0).insert(
                                added_of(d).new_path->Some_0,
                                tree_map(pt)[deleted_of(d).old_path->Some_0],
                            )
                            &&& final(r).commits@[id2 as int].parents@ =~= seq![id1]
                            &&& final(r).commits@[id2 as int].tree == orig.tree
                            &&& sig_like(final(r).commits@[id2 as int].author, orig.author)
                            &&& sig_like(
                                final(r).commits@[id2 as int].committer,
                                orig.committer,
                            )
                            &&& final(r).commits@[id2 as int].message@ == orig.message@
                            &&& final(r).branches@[dest as int].target == id2
                        },
                    }
                },
            }
        }),
{
    proof {
        assert(commit_wf(*old(r), commit as int));
    }
    let pt_id = r.commits[commit].parents[0];
    proof {
        assert((pt_id as int) < commit as int);
        assert(commit_wf(*old(r), pt_id as int));
    }
    let ptree_id = r.commits[pt_id].tree;
    proof {
        assert((ptree_id as int) < r.trees@.len());
        assert(tree_wf(r.trees@[ptree_id as int]));
    }
    if is_rename_pattern(diff) {
        let del_first = match diff[0].status {
            crate::diff::Delta::Deleted => true,
            _ => false,
        };
        let del_ix: usize = if del_first {
            0
        } else {
            1
        };
        let add_ix: usize = if del_first {
            1
        } else {
            0
        };
        let old_p = match &diff[del_ix].old_path {
            Some(p) => p,
            None => {
                return Err(RewriteError::MissingDeletedPath);
            },
        };
        let new_p = match &diff[add_ix].new_path {
            Some(p) => p,
            None => {
                return Err(RewriteError::MissingAddedPath);
            },
        };
        let new_tree = match apply_rename(&r.trees[ptree_id], old_p, new_p) {
            Ok(t) => t,
            Err(e) => {
                return Err(e);
            },
        };
        let t_id = r.trees.len();
        let ghost mid0 = *r;
        r.trees.push(new_tree);
        proof {
            assert(r.trees@.subrange(0, mid0.trees@.len() as int) =~= mid0.trees@);
            assert forall|cc: int| 0 <= cc < r.commits@.len() implies commit_wf(*r, cc) by {
                assert(commit_wf(mid0, cc));
            }
            assert forall|tt: int| 0 <= tt < r.trees@.len() implies tree_wf(r.trees@[tt]) by {
                if tt < mid0.trees@.len() {
                    assert(tree_wf(mid0.trees@[tt]));
                }
            }
            assert forall|b: int| 0 <= b < r.branches@.len() implies branch_wf(*r, b) by {
                assert(branch_wf(mid0, b));
            }
            assert(repo_wf(*r));
        }
        let msg = rewrite_message(&r.commits[commit].message);
        let author = clone_signature(&r.commits[commit].author);
        let committer = clone_signature(&r.commits[commit].committer);
        let id1 = append_commit(r, dest, parent, t_id, author, committer, msg);
        let author2 = clone_signature(&r.commits[commit].author);
        let committer2 = clone_signature(&r.commits[commit].committer);
        let msg2 = clone_bytes(&r.commits[commit].message);
        let orig_tree = r.commits[commit].tree;
        let id2 = append_commit(r, dest, id1, orig_tree, author2, committer2, msg2);
        proof {
            assert(final(r).commits@.subrange(0, old(r).commits@.len() as int) =~= old(r).commits@);
            assert(final(r).trees@.subrange(0, old(r).trees@.len() as int) =~= old(r).trees@);
        }
        Ok(Emitted::Renamed(id1, id2))
    } else {
        let author = clone_signature(&r.commits[commit].author);
        let committer = clone_signature(&r.commits[commit].committer);
        let msg = clone_bytes(&r.commits[commit].message);
        let orig_tree = r.commits[commit].tree;
        let id = append_commit(r, dest, parent, orig_tree, author, committer, msg);
        proof {
            assert(final(r).commits@.subrange(0, old(r).commits@.len() as int) =~= old(r).commits@);
        }
        Ok(Emitted::Unchanged(id))
    }
}

} // verus!
