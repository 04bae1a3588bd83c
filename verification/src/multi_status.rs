//! The divergence counter: for every branch, how many commits its tip can
//! reach that the merge base with the head commit cannot.

use vstd::prelude::*;

use crate::bytes::clone_bytes;
use crate::graph::{ancestor_mask, common_ancestor, is_ancestor, is_merge_base,
    lemma_ancestor_range, merge_bases};
use crate::model::{branch_wf, head_commit, head_wf, repo_wf, Head, Repo};

verus! {

/// One line of the divergence report.
pub struct BranchStatus {
    pub name: Vec<u8>,
    pub unique: usize,
}

/// Why the divergence report cannot be produced.
#[derive(Clone, Copy, PartialEq, Eq, Structural, Debug)]
pub enum StatusError {
    /// A branch tip shares no ancestor with the head commit.
    NoMergeBase,
}

/// The two commits share an ancestor.
pub open spec fn has_common_ancestor(r: Repo, a: int, b: int) -> bool {
    exists|m: int| 0 <= m < r.commits@.len() && is_ancestor(r, m, a) && is_ancestor(r, m, b)
}

/// Some best common ancestor exists above any common ancestor.
pub proof fn lemma_base_exists(r: Repo, cands: Seq<usize>, m: int)
    requires
        repo_wf(r),
        0 <= m < r.commits@.len(),
        common_ancestor(r, cands, m),
    ensures
        exists|mb: int| is_merge_base(r, cands, mb),
    decreases r.commits@.len() - m,
{
    if is_merge_base(r, cands, m) {
    } else {
        let c = choose|c: int|
            0 <= c < r.commits@.len() && c != m && common_ancestor(r, cands, c) && is_ancestor(
                r,
                m,
                c,
            );
        lemma_ancestor_range(r, m, c);
        lemma_base_exists(r, cands, c);
    }
}

/// The best common ancestor of the candidates with the highest index.
pub open spec fn top_base_of(r: Repo, cands: Seq<usize>) -> int {
    choose|m: int|
        is_merge_base(r, cands, m) && (forall|m2: int|
            #[trigger] is_merge_base(r, cands, m2) ==> m2 <= m)
}

/// The chosen merge base of two commits: the best common ancestor with the
/// highest index.
pub open spec fn top_base(r: Repo, a: int, b: int) -> int {
    top_base_of(r, seq![a as usize, b as usize])
}

/// Computes the merge base of two commits, when they share an ancestor:
/// the best common ancestor with the highest index.
pub fn merge_base(r: &Repo, a: usize, b: usize) -> (out: Option<usize>)
    requires
        repo_wf(*r),
        (a as int) < r.commits@.len(),
        (b as int) < r.commits@.len(),
    ensures
        match out {
            Some(m) => is_merge_base(*r, seq![a, b], m as int) && (forall|m2: int|
                is_merge_base(*r, seq![a, b], m2) ==> m2 <= m as int) && m as int == top_base(
                *r,
                a as int,
                b as int,
            ),
            None => !has_common_ancestor(*r, a as int, b as int),
        },
{
    let mut ids: Vec<usize> = Vec::new();
    ids.push(a);
    ids.push(b);
    proof {
        assert(ids@ =~= seq![a, b]);
    }
    let bases = merge_bases(r, &ids);
    if bases.len() == 0 {
        proof {
            if has_common_ancestor(*r, a as int, b as int) {
                let m = choose|m: int|
                    0 <= m < r.commits@.len() && is_ancestor(*r, m, a as int) && is_ancestor(
                        *r,
                        m,
                        b as int,
                    );
                assert(common_ancestor(*r, ids@, m)) by {
                    assert forall|qq: int| 0 <= qq < ids@.len() implies is_ancestor(
                        *r,
                        m,
                        ids@[qq] as int,
                    ) by {}
                }
                lemma_base_exists(*r, ids@, m);
                let mb = choose|mb: int| is_merge_base(*r, ids@, mb);
                assert(exists|j: int| 0 <= j < bases@.len() && bases@[j] as int == mb);
                assert(false);
            }
        }
        return None;
    }
    let mut mx = bases[0];
    let mut j: usize = 1;
    while j < bases.len()
        invariant
            repo_wf(*r),
            1 <= j <= bases@.len(),
            bases@.len() > 0,
            exists|jj: int| 0 <= jj < j && bases@[jj] == mx,
            forall|jj: int| 0 <= jj < j ==> bases@[jj] <= mx,
        decreases bases@.len() - j,
    {
        let ghost mxp = mx;
        if bases[j] > mx {
            mx = bases[j];
        }
        proof {
            if mx == mxp {
                let jj = choose|jj: int| 0 <= jj < j && bases@[jj] == mx;
                assert(0 <= jj < j + 1 && bases@[jj] == mx);
            } else {
                assert(0 <= (j as int) && (j as int) < j + 1 && bases@[j as int] == mx);
            }
        }
        j += 1;
    }
    proof {
        let jj = choose|jj: int| 0 <= jj < bases@.len() && bases@[jj] == mx;
        assert(is_merge_base(*r, ids@, mx as int));
        assert forall|m2: int| is_merge_base(*r, seq![a, b], m2) implies m2 <= mx as int by {
            let j2 = choose|j2: int| 0 <= j2 < bases@.len() && bases@[j2] as int == m2;
            assert(bases@[j2] <= mx);
        }
        let tb = top_base(*r, a as int, b as int);
        assert(is_merge_base(*r, seq![a, b], tb) && (forall|m2: int|
            is_merge_base(*r, seq![a, b], m2) ==> m2 <= tb));
        assert(mx as int <= tb && tb <= mx as int);
    }
    Some(mx)
}

/// Number of commits with index below `n` reachable from `tip` but not from
/// `base`.
pub open spec fn unique_upto(r: Repo, tip: int, base: int, n: int) -> int
    decreases n,
{
    if n <= 0 {
        0
    } else {
        unique_upto(r, tip, base, n - 1) + if is_ancestor(r, n - 1, tip) && !is_ancestor(
            r,
            n - 1,
            base,
        ) {
            1int
        } else {
            0int
        }
    }
}

/// Number of commits reachable from `tip` but not from `base`.
pub open spec fn unique_count(r: Repo, tip: int, base: int) -> int {
    unique_upto(r, tip, base, r.commits@.len() as int)
}

/// Counts the commits reachable from `tip` but not from `base`.
pub fn count_unique_commits(r: &Repo, tip: usize, base: usize) -> (out: usize)
    requires
        repo_wf(*r),
        (tip as int) < r.commits@.len(),
        (base as int) < r.commits@.len(),
    ensures
        out as int == unique_count(*r, tip as int, base as int),
{
    let tm = ancestor_mask(r, tip);
    let bm = ancestor_mask(r, base);
    let mut n: usize = 0;
    let mut i: usize = 0;
    while i < r.commits.len()
        invariant
            repo_wf(*r),
            i <= r.commits@.len(),
            n <= i,
            tm@.len() == r.commits@.len(),
            bm@.len() == r.commits@.len(),
            forall|x: int| 0 <= x < tm@.len() ==> (tm@[x] <==> is_ancestor(*r, x, tip as int)),
            forall|x: int| 0 <= x < bm@.len() ==> (bm@[x] <==> is_ancestor(*r, x, base as int)),
            n as int == unique_upto(*r, tip as int, base as int, i as int),
        decreases r.commits@.len() - i,
    {
        if tm[i] && !bm[i] {
            n += 1;
        }
        i += 1;
    }
    n
}

/// The divergence report over the first `n` branches: one (name, count)
/// pair per branch, counting the commits its tip can reach but the merge
/// base with the head commit cannot.
pub open spec fn status_report_upto(r: Repo, n: int) -> Seq<(Seq<u8>, int)>
    decreases n,
{
    if n <= 0 {
        Seq::empty()
    } else {
        status_report_upto(r, n - 1).push(
            (
                r.branches@[n - 1].name@,
                unique_count(
                    r,
                    r.branches@[n - 1].target as int,
                    top_base(r, r.branches@[n - 1].target as int, head_commit(r)),
                ),
            ),
        )
    }
}

/// The mathematical value of a divergence report.
pub open spec fn status_views(v: Seq<BranchStatus>) -> Seq<(Seq<u8>, int)> {
    v.map_values(|e: BranchStatus| (e.name@, e.unique as int))
}

/// Branch `b`'s tip shares an ancestor with the head commit.
pub open spec fn branch_has_base(r: Repo, b: int) -> bool {
    has_common_ancestor(r, r.branches@[b].target as int, head_commit(r))
}

/// The divergence report for every branch, local and remote-tracking alike,
/// in branch order.  Fails on the first branch whose tip shares no ancestor
/// with the head commit.
pub fn multi_status(r: &Repo) -> (out: Result<Vec<BranchStatus>, StatusError>)
    requires
        repo_wf(*r),
    ensures
        match out {
            Ok(v) => (forall|b: int| 0 <= b < r.branches@.len() ==> branch_has_base(*r, b))
                && status_views(v@) == status_report_upto(*r, r.branches@.len() as int),
            Err(e) => e == StatusError::NoMergeBase && exists|b: int|
                0 <= b < r.branches@.len() && !branch_has_base(*r, b),
        },
{
    proof {
        assert(head_wf(*r));
    }
    let hc: usize = match r.head {
        Head::OnBranch(hb) => {
            proof {
                assert(branch_wf(*r, hb as int));
            }
            r.branches[hb].target
        },
        Head::Detached(cc) => cc,
    };
    let mut out: Vec<BranchStatus> = Vec::new();
    let mut b: usize = 0;
    while b < r.branches.len()
        invariant
            repo_wf(*r),
            b <= r.branches@.len(),
            hc as int == head_commit(*r),
            (hc as int) < r.commits@.len(),
            forall|bb: int| 0 <= bb < b ==> branch_has_base(*r, bb),
            status_views(out@) =~= status_report_upto(*r, b as int),
        decreases r.branches@.len() - b,
    {
        proof {
            assert(branch_wf(*r, b as int));
        }
        let tip = r.branches[b].target;
        let base = match merge_base(r, tip, hc) {
            Some(m) => m,
            None => {
                proof {
                    assert(!branch_has_base(*r, b as int));
                }
                return Err(StatusError::NoMergeBase);
            },
        };
        proof {
            assert(is_merge_base(*r, seq![tip, hc], base as int));
            assert(is_ancestor(*r, base as int, seq![tip, hc][0] as int));
            assert(is_ancestor(*r, base as int, seq![tip, hc][1] as int));
            assert(branch_has_base(*r, b as int));
            crate::graph::lemma_ancestor_range(*r, base as int, tip as int);
        }
        let unique = count_unique_commits(r, tip, base);
        let name = clone_bytes(&r.branches[b].name);
        out.push(BranchStatus { name, unique });
        b += 1;
        proof {
            assert(status_views(out@) =~= status_report_upto(*r, b as int));
        }
    }
    Ok(out)
}

} // verus!
