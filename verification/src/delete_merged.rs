//! The merge-safety classifier: a branch is safe to delete when its tip
//! descends from a best common ancestor of the branch tip, the head commit,
//! and the upstream tip (when one is configured).

use vstd::prelude::*;

use crate::bytes::clone_bytes;
use crate::graph::{any_descend, common_ancestor, is_ancestor, is_merge_base,
    lemma_ancestor_antisymmetric, merge_bases};
use crate::model::{branch_wf, head_commit, head_wf, repo_wf, Head, Repo};

verus! {

/// One line of the merge-safety report.
pub struct BranchSafety {
    pub name: Vec<u8>,
    pub safe: bool,
}

/// The candidate commits whose merge bases decide branch `b`'s safety: the
/// branch tip, the head commit, and the upstream tip when one is set.
pub open spec fn candidate_ids(r: Repo, b: int) -> Seq<usize> {
    let base = seq![r.branches@[b].target, head_commit(r) as usize];
    match r.branches@[b].upstream {
        Some(u) => base.push(u),
        None => base,
    }
}

/// Branch `b` contributes nothing beyond a point already shared with the
/// head (or its upstream): its tip descends from some best common ancestor
/// of the candidate set.
pub open spec fn safe_to_delete(r: Repo, b: int) -> bool {
    exists|m: int|
        is_merge_base(r, candidate_ids(r, b), m) && is_ancestor(
            r,
            m,
            r.branches@[b].target as int,
        )
}

/// Safety verdict for one branch.
pub fn is_safe_to_delete(r: &Repo, b: usize) -> (out: bool)
    requires
        repo_wf(*r),
        (b as int) < r.branches@.len(),
    ensures
        out == safe_to_delete(*r, b as int),
{
    proof {
        assert(branch_wf(*r, b as int));
        assert(head_wf(*r));
    }
    let tip = r.branches[b].target;
    let hc: usize = match r.head {
        Head::OnBranch(hb) => {
            proof {
                assert(branch_wf(*r, hb as int));
            }
            r.branches[hb].target
        },
        Head::Detached(cc) => cc,
    };
    let mut ids: Vec<usize> = Vec::new();
    ids.push(tip);
    ids.push(hc);
    match r.branches[b].upstream {
        Some(u) => {
            ids.push(u);
        },
        None => {},
    }
    proof {
        assert(ids@ =~= candidate_ids(*r, b as int));
    }
    let bases = merge_bases(r, &ids);
    let out = any_descend(r, tip, &bases);
    proof {
        let cands = candidate_ids(*r, b as int);
        if out {
            let j = choose|j: int|
                0 <= j < bases@.len() && is_ancestor(*r, bases@[j] as int, tip as int);
            assert(is_merge_base(*r, cands, bases@[j] as int));
            assert(safe_to_delete(*r, b as int));
        }
        if safe_to_delete(*r, b as int) {
            let m = choose|m: int|
                is_merge_base(*r, cands, m) && is_ancestor(*r, m, tip as int);
            let j = choose|j: int| 0 <= j < bases@.len() && bases@[j] as int == m;
            assert(is_ancestor(*r, bases@[j] as int, tip as int));
            assert(out);
        }
    }
    out
}

/// The safety report over the first `n` branches: one (name, verdict) pair
/// per local branch, in branch order; remote-tracking branches are skipped.
pub open spec fn safety_report_upto(r: Repo, n: int) -> Seq<(Seq<u8>, bool)>
    decreases n,
{
    if n <= 0 {
        Seq::empty()
    } else {
        let pre = safety_report_upto(r, n - 1);
        if r.branches@[n - 1].remote {
            pre
        } else {
            pre.push((r.branches@[n - 1].name@, safe_to_delete(r, n - 1)))
        }
    }
}

/// The mathematical value of a safety report.
pub open spec fn report_views(v: Seq<BranchSafety>) -> Seq<(Seq<u8>, bool)> {
    v.map_values(|e: BranchSafety| (e.name@, e.safe))
}

/// Safety verdicts for every local branch, in branch order.
pub fn delete_merged(r: &Repo) -> (out: Vec<BranchSafety>)
    requires
        repo_wf(*r),
    ensures
        report_views(out@) == safety_report_upto(*r, r.branches@.len() as int),
{
    let mut out: Vec<BranchSafety> = Vec::new();
    let mut b: usize = 0;
    while b < r.branches.len()
        invariant
            repo_wf(*r),
            b <= r.branches@.len(),
            report_views(out@) =~= safety_report_upto(*r, b as int),
        decreases r.branches@.len() - b,
    {
        if !r.branches[b].remote {
            let safe = is_safe_to_delete(r, b);
            let name = clone_bytes(&r.branches[b].name);
            out.push(BranchSafety { name, safe });
        }
        b += 1;
        proof {
            assert(report_views(out@) =~= safety_report_upto(*r, b as int));
        }
    }
    out
}

/// A branch whose tip is the head commit, with no upstream, is always safe
/// to delete: the tip itself is a best common ancestor of the candidates,
/// and every commit descends from itself.
pub proof fn lemma_head_tip_safe(r: Repo, b: int)
    requires
        repo_wf(r),
        0 <= b < r.branches@.len(),
        r.branches@[b].target as int == head_commit(r),
        r.branches@[b].upstream is None,
    ensures
        safe_to_delete(r, b),
{
    assert(branch_wf(r, b));
    let tip = r.branches@[b].target as int;
    let cands = candidate_ids(r, b);
    assert(cands.len() == 2 && cands[0] as int == tip && cands[1] as int == tip);
    assert(is_ancestor(r, tip, tip));
    assert(common_ancestor(r, cands, tip)) by {
        assert forall|qq: int| 0 <= qq < cands.len() implies is_ancestor(
            r,
            tip,
            cands[qq] as int,
        ) by {}
    }
    assert forall|c: int|
        0 <= c < r.commits@.len() && c != tip && common_ancestor(r, cands, c) implies
        !is_ancestor(r, tip, c) by {
        if is_ancestor(r, tip, c) {
            assert(is_ancestor(r, c, cands[0] as int));
            lemma_ancestor_antisymmetric(r, tip, c);
        }
    }
    assert(is_merge_base(r, cands, tip));
}

} // verus!
