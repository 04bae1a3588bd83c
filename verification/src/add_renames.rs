//! The rewrite driver: walks the commits between a starting point and the
//! head branch's tip in oldest-first order, threads the current parent
//! through the rename normalizer, and appends the rewritten chain to a fresh
//! destination branch.

use vstd::prelude::*;

use crate::bytes::{clone_bytes, concat_bytes};
use crate::diff::{diff_of_trees, rename_pattern, views_of, ChangeView};
use crate::graph::{ancestor_mask, is_ancestor, lemma_ancestor_stable};
use crate::model::{branch_wf, commit_wf, find_branch, has_branch, head_wf, repo_wf, sig_like,
    tree_map, tree_wf, Branch, Head, Repo};
use crate::rename::{lemma_generated_shape_ok, normalize, parent_tree, rename_shape,
    rewritten_message, Emitted, RewriteError};

verus! {

/// The fixed namespace prefix of destination branches, `pp-rename/`.
pub open spec fn dest_prefix() -> Seq<u8> {
    seq![112u8, 112u8, 45u8, 114u8, 101u8, 110u8, 97u8, 109u8, 101u8, 47u8]
}

/// The destination branch name derived from the source branch name.
pub open spec fn dest_name(src: Seq<u8>) -> Seq<u8> {
    dest_prefix() + src
}

/// The head stands on a local branch.
pub open spec fn on_local_branch(r: Repo) -> bool {
    match r.head {
        Head::OnBranch(b) => !r.branches@[b as int].remote,
        Head::Detached(_) => false,
    }
}

/// Index of the branch the head stands on.
pub open spec fn head_branch(r: Repo) -> int {
    match r.head {
        Head::OnBranch(b) => b as int,
        Head::Detached(_) => 0,
    }
}

/// Commit `c` is replayed: reachable from the tip but not from the start.
pub open spec fn in_walk(r: Repo, tip: int, since: int, c: int) -> bool {
    is_ancestor(r, c, tip) && !is_ancestor(r, c, since)
}

/// The replayed commits with index below `n`, oldest (smallest index) first.
pub open spec fn walk_upto(r: Repo, tip: int, since: int, n: int) -> Seq<int>
    decreases n,
{
    if n <= 0 {
        Seq::empty()
    } else if in_walk(r, tip, since, n - 1) {
        walk_upto(r, tip, since, n - 1).push(n - 1)
    } else {
        walk_upto(r, tip, since, n - 1)
    }
}

/// The full replay sequence, oldest first.
pub open spec fn walk_seq(r: Repo, tip: int, since: int) -> Seq<int> {
    walk_upto(r, tip, since, r.commits@.len() as int)
}

/// Every walked commit has exactly one parent.
pub open spec fn linear_walk(r: Repo, w: Seq<int>) -> bool {
    forall|k: int| 0 <= k < w.len() ==> r.commits@[w[k]].parents@.len() == 1
}

/// The change-set of walked commit `c` against its sole parent.
pub open spec fn walk_diff(r: Repo, c: int) -> Seq<ChangeView> {
    diff_of_trees(parent_tree(r, c), r.trees@[r.commits@[c].tree as int])
}

/// How many commits the rewrite emits for the walked sequence `w`: two for a
/// commit whose change-set matches the rename pattern, one otherwise.
pub open spec fn emit_count(r: Repo, w: Seq<int>) -> int
    decreases w.len(),
{
    if w.len() == 0 {
        0
    } else {
        emit_count(r, w.drop_last()) + if rename_pattern(walk_diff(r, w.last())) {
            2int
        } else {
            1int
        }
    }
}

/// Every commit appended at or after `base` is parented on its immediate
/// predecessor, the first on `since`.
pub open spec fn chain_from(r: Repo, base: int, since: usize) -> bool {
    forall|c: int|
        base <= c < r.commits@.len() ==> r.commits@[c].parents@ == seq![
            if c == base {
                since
            } else {
                (c - 1) as usize
            },
        ]
}

/// What the rewrite owes for the `k`-th walked commit.  `r0` is the
/// repository before the rewrite, `r1` after; `base0` is the index of the
/// first appended commit.  A commit whose change-set matches the rename
/// pattern is replaced by a synthetic rename commit (the parent tree with
/// the deleted entry moved to the added path, the message re-prefixed)
/// followed by a commit with its own tree and message; any other commit is
/// replayed verbatim.
pub open spec fn replayed_ok(r0: Repo, r1: Repo, w: Seq<int>, k: int, base0: int) -> bool {
    let c = w[k];
    let b = base0 + emit_count(r0, w.take(k));
    let orig = r0.commits@[c];
    if rename_pattern(walk_diff(r0, c)) {
        let d = walk_diff(r0, c);
        let pt = parent_tree(r0, c);
        &&& rename_shape(d, pt) == Ok::<(), RewriteError>(())
        &&& r1.commits@[b].message@ == rewritten_message(orig.message@)
        &&& sig_like(r1.commits@[b].author, orig.author)
        &&& sig_like(r1.commits@[b].committer, orig.committer)
        &&& (r1.commits@[b].tree as int) < r1.trees@.len()
        &&& tree_map(r1.trees@[r1.commits@[b].tree as int]) == tree_map(pt).remove(
            crate::diff::deleted_of(d).old_path->Some_0,
        ).insert(
            crate::diff::added_of(d).new_path->Some_0,
            tree_map(pt)[crate::diff::deleted_of(d).old_path->Some_0],
        )
        &&& r1.commits@[b + 1].tree == orig.tree
        &&& r1.commits@[b + 1].message@ == orig.message@
        &&& sig_like(r1.commits@[b + 1].author, orig.author)
        &&& sig_like(r1.commits@[b + 1].committer, orig.committer)
    } else {
        &&& r1.commits@[b].tree == orig.tree
        &&& r1.commits@[b].message@ == orig.message@
        &&& sig_like(r1.commits@[b].author, orig.author)
        &&& sig_like(r1.commits@[b].committer, orig.committer)
    }
}

/// A failed rewrite stopped at the `k`-th walked commit, a merge: all
/// earlier walked commits were single-parent and were replayed, and nothing
/// was emitted beyond them.
pub open spec fn stopped_at(r0: Repo, r1: Repo, w: Seq<int>, k: int, base0: int) -> bool {
    &&& 0 <= k < w.len()
    &&& (forall|kk: int| 0 <= kk < k ==> r0.commits@[w[kk]].parents@.len() == 1)
    &&& r0.commits@[w[k]].parents@.len() != 1
    &&& r1.commits@.len() == base0 + emit_count(r0, w.take(k))
    &&& (forall|kk: int| 0 <= kk < k ==> replayed_ok(r0, r1, w, kk, base0))
}

/// At least one commit is emitted for each walked commit.
pub proof fn lemma_emit_ge(r: Repo, w: Seq<int>)
    ensures
        emit_count(r, w) >= w.len(),
    decreases w.len(),
{
    if w.len() > 0 {
        lemma_emit_ge(r, w.drop_last());
    }
}

/// One more walked commit adds one or two emitted commits.
pub proof fn lemma_emit_take_step(r: Repo, w: Seq<int>, k: int)
    requires
        0 <= k < w.len(),
    ensures
        emit_count(r, w.take(k + 1)) == emit_count(r, w.take(k)) + if rename_pattern(
            walk_diff(r, w[k]),
        ) {
            2int
        } else {
            1int
        },
{
    assert(w.take(k + 1).drop_last() =~= w.take(k));
    assert(w.take(k + 1).last() == w[k]);
}

/// The emitted count grows with the walked prefix.
pub proof fn lemma_emit_mono(r: Repo, w: Seq<int>, n1: int, n2: int)
    requires
        0 <= n1 <= n2 <= w.len(),
    ensures
        emit_count(r, w.take(n1)) <= emit_count(r, w.take(n2)),
    decreases n2 - n1,
{
    if n1 < n2 {
        lemma_emit_mono(r, w, n1, n2 - 1);
        lemma_emit_take_step(r, w, n2 - 1);
    }
}

/// Rewrites the history between `since` (exclusive) and the head branch's
/// tip onto a fresh destination branch named after the source branch, with
/// every unrecorded rename normalized into an explicit rename commit
/// followed by a content commit, and every other commit replayed verbatim.
/// On success returns the destination branch name.  Fails fast, before any
/// object is written, when the head is not on a local branch, when the
/// destination branch already exists, or when the starting commit is
/// unknown; fails on the first walked merge commit, leaving the commits
/// appended for earlier walked commits in place.
pub fn add_renames(r: &mut Repo, since: usize) -> (out: Result<Vec<u8>, RewriteError>)
    requires
        repo_wf(*old(r)),
    ensures
        repo_wf(*final(r)),
        ({
            let r0 = *old(r);
            let base0 = r0.commits@.len() as int;
            let src = r0.branches@[head_branch(r0)].name@;
            let tip = r0.branches@[head_branch(r0)].target as int;
            let w = walk_seq(r0, tip, since as int);
            match out {
                Ok(name) => {
                    &&& on_local_branch(r0)
                    &&& !has_branch(r0, dest_name(src))
                    &&& (since as int) < r0.commits@.len()
                    &&& linear_walk(r0, w)
                    &&& name@ == dest_name(src)
                    &&& final(r).head == r0.head
                    &&& final(r).commits@.subrange(0, base0) == r0.commits@
                    &&& final(r).trees@.subrange(0, r0.trees@.len() as int) == r0.trees@
                    &&& final(r).commits@.len() == base0 + emit_count(r0, w)
                    &&& chain_from(*final(r), base0, since)
                    &&& forall|k: int| 0 <= k < w.len() ==> replayed_ok(r0, *final(r), w, k, base0)
                    &&& final(r).branches@.len() == r0.branches@.len() + 1
                    &&& final(r).branches@.subrange(0, r0.branches@.len() as int) == r0.branches@
                    &&& final(r).branches@[r0.branches@.len() as int].name@ == dest_name(src)
                    &&& !final(r).branches@[r0.branches@.len() as int].remote
                    &&& (final(r).branches@[r0.branches@.len() as int].target as int) == (
                    if w.len() == 0 {
                        since as int
                    } else {
                        base0 + emit_count(r0, w) - 1
                    })
                },
                Err(e) => {
                    &&& (e == RewriteError::NotOnLocalBranch <==> !on_local_branch(r0))
                    &&& (e == RewriteError::DestinationExists <==> on_local_branch(r0)
                        && has_branch(r0, dest_name(src)))
                    &&& (e == RewriteError::UnknownRevision <==> on_local_branch(r0)
                        && !has_branch(r0, dest_name(src)) && (since as int) >= r0.commits@.len())
                    &&& (e == RewriteError::NotOnLocalBranch || e == RewriteError::DestinationExists
                        || e == RewriteError::UnknownRevision ==> *final(r) == r0)
                    &&& (e == RewriteError::NotOnLocalBranch || e == RewriteError::DestinationExists
                        || e == RewriteError::UnknownRevision || e == RewriteError::MergeInHistory)
                    &&& (e == RewriteError::MergeInHistory ==> {
                        &&& on_local_branch(r0)
                        &&& !has_branch(r0, dest_name(src))
                        &&& (since as int) < r0.commits@.len()
                        &&& !linear_walk(r0, w)
                        &&& final(r).head == r0.head
                        &&& final(r).commits@.subrange(0, base0) == r0.commits@
                        &&& final(r).trees@.subrange(0, r0.trees@.len() as int) == r0.trees@
                        &&& chain_from(*final(r), base0, since)
                        &&& final(r).branches@.len() == r0.branches@.len() + 1
                        &&& final(r).branches@.subrange(0, r0.branches@.len() as int)
                            == r0.branches@
                        &&& final(r).branches@[r0.branches@.len() as int].name@ == dest_name(src)
                        &&& exists|k: int| stopped_at(r0, *final(r), w, k, base0)
                    })
                },
            }
        }),
{
    let ghost r0 = *old(r);
    let hb: usize = match r.head {
        Head::OnBranch(b) => b,
        Head::Detached(_) => {
            return Err(RewriteError::NotOnLocalBranch);
        },
    };
    proof {
        assert(head_wf(r0));
        assert(hb as int == head_branch(r0));
    }
    if r.branches[hb].remote {
        return Err(RewriteError::NotOnLocalBranch);
    }
    proof {
        assert(on_local_branch(r0));
    }
    let mut dpre: Vec<u8> = Vec::new();
    dpre.push(112);
    dpre.push(112);
    dpre.push(45);
    dpre.push(114);
    dpre.push(101);
    dpre.push(110);
    dpre.push(97);
    dpre.push(109);
    dpre.push(101);
    dpre.push(47);
    proof {
        assert(dpre@ =~= dest_prefix());
    }
    let dname = concat_bytes(&dpre, &r.branches[hb].name);
    proof {
        assert(dname@ == dest_name(r0.branches@[head_branch(r0)].name@));
    }
    match find_branch(r, &dname) {
        Some(_) => {
            return Err(RewriteError::DestinationExists);
        },
        None => {},
    }
    if since >= r.commits.len() {
        return Err(RewriteError::UnknownRevision);
    }
    let tip = r.branches[hb].target;
    proof {
        assert(branch_wf(r0, hb as int));
    }
    let dest = r.branches.len();
    let nb = Branch {
        name: clone_bytes(&dname),
        remote: false,
        target: since,
        upstream: None,
    };
    r.branches.push(nb);
    proof {
        assert(r.branches@.subrange(0, r0.branches@.len() as int) =~= r0.branches@);
        assert forall|c: int| 0 <= c < r.commits@.len() implies commit_wf(*r, c) by {
            assert(commit_wf(r0, c));
        }
        assert forall|t: int| 0 <= t < r.trees@.len() implies tree_wf(r.trees@[t]) by {
            assert(tree_wf(r0.trees@[t]));
        }
        assert forall|b: int| 0 <= b < r.branches@.len() implies branch_wf(*r, b) by {
            if b < r0.branches@.len() {
                assert(branch_wf(r0, b));
            }
        }
        assert forall|i: int, j: int|
            0 <= i < j < r.branches@.len() implies r.branches@[i].name@
            != r.branches@[j].name@ by {
            if j < r0.branches@.len() {
                assert(r0.branches@[i].name@ != r0.branches@[j].name@);
            } else {
                assert(r.branches@[i] == r0.branches@[i]);
            }
        }
        assert(head_wf(*r));
        assert(repo_wf(*r));
    }
    let ghost tg: int = tip as int;
    let ghost sg: int = since as int;
    let tip_mask = ancestor_mask(r, tip);
    let since_mask = ancestor_mask(r, since);
    proof {
        let r1 = *r;
        assert(r1.commits@.subrange(0, r0.commits@.len() as int) =~= r0.commits@);
        assert forall|j: int| 0 <= j < r0.commits@.len() implies (tip_mask@[j] <==> is_ancestor(
            r0,
            j,
            tg,
        )) && (since_mask@[j] <==> is_ancestor(r0, j, sg)) by {
            lemma_ancestor_stable(r0, r1, j, tg);
            lemma_ancestor_stable(r0, r1, j, sg);
        }
    }
    let cend = r.commits.len();
    let mut parent: usize = since;
    let mut c: usize = 0;
    while c < cend
        invariant
            r0 == *old(r),
            repo_wf(*r),
            repo_wf(r0),
            c <= cend,
            cend == r0.commits@.len(),
            on_local_branch(r0),
            hb as int == head_branch(r0),
            tg == r0.branches@[head_branch(r0)].target as int,
            tip as int == tg,
            sg == since as int,
            (tg as int) < r0.commits@.len(),
            (since as int) < r0.commits@.len(),
            dname@ == dest_name(r0.branches@[head_branch(r0)].name@),
            !has_branch(r0, dname@),
            tip_mask@.len() == cend,
            since_mask@.len() == cend,
            forall|j: int| 0 <= j < cend ==> (tip_mask@[j] <==> is_ancestor(r0, j, tg)),
            forall|j: int| 0 <= j < cend ==> (since_mask@[j] <==> is_ancestor(r0, j, sg)),
            r0.commits@.len() <= r.commits@.len(),
            r.commits@.subrange(0, cend as int) == r0.commits@,
            r0.trees@.len() <= r.trees@.len(),
            r.trees@.subrange(0, r0.trees@.len() as int) == r0.trees@,
            r.branches@.len() == r0.branches@.len() + 1,
            r.branches@.subrange(0, r0.branches@.len() as int) == r0.branches@,
            dest as int == r0.branches@.len(),
            r.branches@[dest as int].name@ == dname@,
            !r.branches@[dest as int].remote,
            r.branches@[dest as int].target == parent,
            r.head == r0.head,
            r.commits@.len() == cend + emit_count(r0, walk_upto(r0, tg, sg, c as int)),
            (parent as int) < r.commits@.len(),
            parent as int == (if walk_upto(r0, tg, sg, c as int).len() == 0 {
                sg
            } else {
                r.commits@.len() - 1
            }),
            chain_from(*r, cend as int, since),
            forall|k: int|
                0 <= k < walk_upto(r0, tg, sg, c as int).len() ==> 0 <= #[trigger] walk_upto(
                    r0,
                    tg,
                    sg,
                    c as int,
                )[k] < cend,
            forall|k: int|
                0 <= k < walk_upto(r0, tg, sg, c as int).len() ==> r0.commits@[walk_upto(
                    r0,
                    tg,
                    sg,
                    c as int,
                )[k]].parents@.len() == 1,
            forall|k: int|
                0 <= k < walk_upto(r0, tg, sg, c as int).len() ==> replayed_ok(
                    r0,
                    *r,
                    walk_upto(r0, tg, sg, c as int),
                    k,
                    cend as int,
                ),
        decreases cend - c,
    {
        let ghost wc = walk_upto(r0, tg, sg, c as int);
        let in_range = tip_mask[c] && !since_mask[c];
        proof {
            assert(in_range == in_walk(r0, tg, sg, c as int));
            assert(walk_upto(r0, tg, sg, c as int + 1) == (if in_walk(r0, tg, sg, c as int) {
                wc.push(c as int)
            } else {
                wc
            }));
        }
        if in_range {
            let ghost wc1 = wc.push(c as int);
            proof {
                assert(r.commits@[c as int] == r0.commits@[c as int]);
                lemma_emit_ge(r0, wc);
            }
            if r.commits[c].parents.len() != 1 {
                proof {
                    let w = walk_seq(r0, tg, sg);
                    lemma_walk_prefix(r0, tg, sg, c as int + 1, cend as int);
                    assert(w.take(wc1.len() as int) == wc1);
                    let k = wc.len() as int;
                    assert(wc1[k] == c as int);
                    assert(w[k] == c as int);
                    assert(w.take(k) =~= wc1.take(k));
                    assert(wc1.take(k) =~= wc);
                    assert(w.take(k) == wc);
                    assert forall|kk: int| 0 <= kk < k implies r0.commits@[w[kk]].parents@.len()
                        == 1 by {
                        assert(w[kk] == wc[kk]);
                    }
                    assert forall|kk: int| 0 <= kk < k implies replayed_ok(
                        r0,
                        *r,
                        w,
                        kk,
                        cend as int,
                    ) by {
                        assert(w[kk] == wc[kk]);
                        assert(w.take(kk) =~= wc.take(kk));
                        assert(replayed_ok(r0, *r, wc, kk, cend as int));
                    }
                    assert(r0.commits@[w[k]].parents@.len() != 1);
                    assert(!linear_walk(r0, w));
                    assert(stopped_at(r0, *r, w, k, cend as int));
                }
                return Err(RewriteError::MergeInHistory);
            }
            let ptc = r.commits[c].parents[0];
            proof {
                assert(commit_wf(*r, c as int));
                assert((ptc as int) < c as int);
                assert(commit_wf(*r, ptc as int));
                assert(r.commits@[ptc as int] == r0.commits@[ptc as int]);
                assert(commit_wf(r0, ptc as int));
                assert(commit_wf(r0, c as int));
            }
            let pt_tree = r.commits[ptc].tree;
            let c_tree = r.commits[c].tree;
            proof {
                assert(tree_wf(r.trees@[pt_tree as int]));
                assert(tree_wf(r.trees@[c_tree as int]));
                assert(r.trees@[pt_tree as int] == r0.trees@[pt_tree as int]);
                assert(r.trees@[c_tree as int] == r0.trees@[c_tree as int]);
                assert(parent_tree(r0, c as int) == r0.trees@[pt_tree as int]);
            }
            let diff = crate::diff::tree_diff(&r.trees[pt_tree], &r.trees[c_tree]);
            proof {
                assert(views_of(diff@) == walk_diff(r0, c as int));
            }
            let ghost rpre = *r;
            let em = match normalize(r, c, &diff, dest, parent) {
                Ok(em) => em,
                Err(e) => {
                    proof {
                        lemma_generated_shape_ok(
                            rpre.trees@[pt_tree as int],
                            rpre.trees@[c_tree as int],
                        );
                        assert(parent_tree(rpre, c as int) == rpre.trees@[pt_tree as int]);
                        assert(false);
                    }
                    return Err(e);
                },
            };
            let ghost oldparent = parent;
            parent = match em {
                Emitted::Unchanged(id) => id,
                Emitted::Renamed(_, id2) => id2,
            };
            proof {
                lemma_emit_take_step(r0, wc1, wc.len() as int);
                assert(wc1.take(wc.len() as int) =~= wc);
                assert(wc1.take(wc1.len() as int) =~= wc1);
                assert(parent_tree(rpre, c as int) == parent_tree(r0, c as int));
                assert(rpre.commits@[c as int] == r0.commits@[c as int]);
                // the repository only grew: values survive
                assert(r.commits@.subrange(0, rpre.commits@.len() as int) == rpre.commits@);
                assert(r.trees@.subrange(0, rpre.trees@.len() as int) == rpre.trees@);
                assert forall|x: int| 0 <= x < rpre.commits@.len() implies r.commits@[x]
                    == rpre.commits@[x] by {
                    assert(r.commits@.subrange(0, rpre.commits@.len() as int)[x]
                        == rpre.commits@[x]);
                }
                assert forall|x: int| 0 <= x < rpre.trees@.len() implies r.trees@[x]
                    == rpre.trees@[x] by {
                    assert(r.trees@.subrange(0, rpre.trees@.len() as int)[x] == rpre.trees@[x]);
                }
                assert(r.commits@.subrange(0, cend as int) =~= r0.commits@);
                assert(r.trees@.subrange(0, r0.trees@.len() as int) =~= r0.trees@);
                assert forall|k: int| 0 <= k < wc1.len() implies replayed_ok(
                    r0,
                    *r,
                    wc1,
                    k,
                    cend as int,
                ) by {
                    assert(wc1.take(k) =~= wc.take(k));
                    if k < wc.len() {
                        assert(replayed_ok(r0, rpre, wc, k, cend as int));
                        lemma_emit_mono(r0, wc, k + 1, wc.len() as int);
                        lemma_emit_take_step(r0, wc, k);
                        assert(wc.take(wc.len() as int) =~= wc);
                        lemma_emit_ge(r0, wc.take(k));
                        let b = cend as int + emit_count(r0, wc.take(k));
                        assert(rpre.commits@.len() == cend + emit_count(r0, wc));
                        if rename_pattern(walk_diff(r0, wc[k])) {
                            assert(b + 2 <= rpre.commits@.len());
                            assert(r.commits@.subrange(0, rpre.commits@.len() as int)[b]
                                == r.commits@[b]);
                            assert(r.commits@.subrange(0, rpre.commits@.len() as int)[b + 1]
                                == r.commits@[b + 1]);
                            assert(r.commits@[b] == rpre.commits@[b]);
                            assert(r.commits@[b + 1] == rpre.commits@[b + 1]);
                            assert((rpre.commits@[b].tree as int) < rpre.trees@.len());
                            assert(r.trees@.subrange(0, rpre.trees@.len() as int)[rpre.commits@[b].tree as int]
                                == r.trees@[rpre.commits@[b].tree as int]);
                            assert(r.trees@[rpre.commits@[b].tree as int] == rpre.trees@[rpre.commits@[b].tree as int]);
                        } else {
                            assert(b + 1 <= rpre.commits@.len());
                            assert(r.commits@.subrange(0, rpre.commits@.len() as int)[b]
                                == r.commits@[b]);
                            assert(r.commits@[b] == rpre.commits@[b]);
                        }
                        assert(replayed_ok(r0, *r, wc1, k, cend as int));
                    } else {
                        assert(k == wc.len() as int);
                        assert(wc1[k] == c as int);
                        assert(emit_count(r0, wc1.take(k)) == emit_count(r0, wc));
                        let b = cend as int + emit_count(r0, wc);
                        assert(b == rpre.commits@.len());
                        match em {
                            Emitted::Unchanged(id) => {
                                assert(!rename_pattern(walk_diff(r0, c as int)));
                                assert(id as int == b);
                                assert(replayed_ok(r0, *r, wc1, k, cend as int));
                            },
                            Emitted::Renamed(id1, id2) => {
                                assert(rename_pattern(walk_diff(r0, c as int)));
                                assert(id1 as int == b && id2 as int == b + 1);
                                assert(replayed_ok(r0, *r, wc1, k, cend as int));
                            },
                        }
                    }
                }
                // chain
                assert forall|cc: int|
                    cend as int <= cc < r.commits@.len() implies r.commits@[cc].parents@ == seq![
                    if cc == cend as int {
                        since
                    } else {
                        (cc - 1) as usize
                    },
                ] by {
                    if cc < rpre.commits@.len() {
                        assert(r.commits@[cc] == rpre.commits@[cc]);
                    } else {
                        if wc.len() == 0 {
                            assert(emit_count(r0, wc) == 0);
                        } else {
                            lemma_emit_ge(r0, wc);
                        }
                        match em {
                            Emitted::Unchanged(id) => {
                                assert(r.commits@[cc].parents@ =~= seq![oldparent]);
                            },
                            Emitted::Renamed(id1, id2) => {
                                if cc == id1 as int {
                                    assert(r.commits@[cc].parents@ =~= seq![oldparent]);
                                } else {
                                    assert(r.commits@[cc].parents@ =~= seq![id1]);
                                }
                            },
                        }
                    }
                }
            }
        } else {
        }
        c += 1;
    }
    proof {
        let w = walk_seq(r0, tg, sg);
        assert(w == walk_upto(r0, tg, sg, cend as int));
    }
    Ok(dname)
}

/// A shorter walk bound yields a prefix of the longer walk.
pub proof fn lemma_walk_prefix(r: Repo, tip: int, since: int, n1: int, n2: int)
    requires
        0 <= n1 <= n2,
    ensures
        walk_upto(r, tip, since, n1).len() <= walk_upto(r, tip, since, n2).len(),
        walk_upto(r, tip, since, n2).take(walk_upto(r, tip, since, n1).len() as int) == walk_upto(
            r,
            tip,
            since,
            n1,
        ),
    decreases n2 - n1,
{
    let w1 = walk_upto(r, tip, since, n1);
    if n1 == n2 {
        assert(walk_upto(r, tip, since, n2).take(w1.len() as int) =~= w1);
    } else {
        lemma_walk_prefix(r, tip, since, n1, n2 - 1);
        let wp = walk_upto(r, tip, since, n2 - 1);
        assert(walk_upto(r, tip, since, n2).take(w1.len() as int) =~= wp.take(w1.len() as int));
    }
}

} // verus!
