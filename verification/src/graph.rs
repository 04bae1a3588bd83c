//! Reachability over the commit graph: the ancestor relation, ancestor
//! masks, and merge bases (best common ancestors) of a set of commits.

use vstd::prelude::*;

use crate::model::{commit_wf, repo_wf, Repo};

verus! {

/// `anc` is reachable from `c` by following parent links (a commit counts as
/// its own ancestor).  The bound on the parent index is redundant in a
/// well-formed repository and only serves the termination argument.
pub open spec fn is_ancestor(r: Repo, anc: int, c: int) -> bool
    decreases c,
        when 0 <= c
{
    c == anc || exists|k: int|
        0 <= k < r.commits@[c].parents@.len() && (r.commits@[c].parents@[k] as int) < c
            && is_ancestor(r, anc, r.commits@[c].parents@[k] as int)
}

/// Ancestors have indices no larger than their descendants, and lie in range.
pub proof fn lemma_ancestor_range(r: Repo, a: int, c: int)
    requires
        repo_wf(r),
        0 <= c < r.commits@.len(),
        is_ancestor(r, a, c),
    ensures
        0 <= a <= c,
    decreases c,
{
    if c != a {
        let k = choose|k: int|
            0 <= k < r.commits@[c].parents@.len() && (r.commits@[c].parents@[k] as int) < c
                && is_ancestor(r, a, r.commits@[c].parents@[k] as int);
        lemma_ancestor_range(r, a, r.commits@[c].parents@[k] as int);
    }
}

/// Every parent of an ancestor of `top` is itself an ancestor of `top`.
pub proof fn lemma_ancestor_parent(r: Repo, top: int, c: int, k: int)
    requires
        repo_wf(r),
        0 <= top < r.commits@.len(),
        is_ancestor(r, c, top),
        0 <= k < r.commits@[c].parents@.len(),
    ensures
        is_ancestor(r, r.commits@[c].parents@[k] as int, top),
    decreases top,
{
    lemma_ancestor_range(r, c, top);
    assert(commit_wf(r, c));
    let p = r.commits@[c].parents@[k] as int;
    if top == c {
        assert(is_ancestor(r, p, p));
        assert(0 <= k < r.commits@[c].parents@.len() && (r.commits@[c].parents@[k] as int) < c
            && is_ancestor(r, p, r.commits@[c].parents@[k] as int));
        assert(is_ancestor(r, p, c));
    } else {
        let k2 = choose|k2: int|
            0 <= k2 < r.commits@[top].parents@.len() && (r.commits@[top].parents@[k2] as int) < top
                && is_ancestor(r, c, r.commits@[top].parents@[k2] as int);
        lemma_ancestor_parent(r, r.commits@[top].parents@[k2] as int, c, k);
        assert(0 <= k2 < r.commits@[top].parents@.len() && (r.commits@[top].parents@[k2] as int)
            < top && is_ancestor(r, p, r.commits@[top].parents@[k2] as int));
    }
}

/// Mutual ancestors are the same commit.
pub proof fn lemma_ancestor_antisymmetric(r: Repo, a: int, b: int)
    requires
        repo_wf(r),
        0 <= a < r.commits@.len(),
        0 <= b < r.commits@.len(),
        is_ancestor(r, a, b),
        is_ancestor(r, b, a),
    ensures
        a == b,
{
    lemma_ancestor_range(r, a, b);
    lemma_ancestor_range(r, b, a);
}

/// The ancestor relation reads only the commits at or below `c`: it is
/// unchanged when the repository gains commits, trees or branches.
pub proof fn lemma_ancestor_stable(r1: Repo, r2: Repo, a: int, c: int)
    requires
        0 <= c < r1.commits@.len(),
        r1.commits@.len() <= r2.commits@.len(),
        r2.commits@.subrange(0, r1.commits@.len() as int) == r1.commits@,
    ensures
        is_ancestor(r1, a, c) == is_ancestor(r2, a, c),
    decreases c,
{
    assert(r2.commits@.subrange(0, r1.commits@.len() as int)[c] == r1.commits@[c]);
    assert(r2.commits@[c] == r1.commits@[c]);
    if c != a {
        if is_ancestor(r1, a, c) {
            let k = choose|k: int|
                0 <= k < r1.commits@[c].parents@.len() && (r1.commits@[c].parents@[k] as int) < c
                    && is_ancestor(r1, a, r1.commits@[c].parents@[k] as int);
            lemma_ancestor_stable(r1, r2, a, r1.commits@[c].parents@[k] as int);
            assert(0 <= k < r2.commits@[c].parents@.len() && (r2.commits@[c].parents@[k] as int)
                < c && is_ancestor(r2, a, r2.commits@[c].parents@[k] as int));
        }
        if is_ancestor(r2, a, c) {
            let k = choose|k: int|
                0 <= k < r2.commits@[c].parents@.len() && (r2.commits@[c].parents@[k] as int) < c
                    && is_ancestor(r2, a, r2.commits@[c].parents@[k] as int);
            lemma_ancestor_stable(r1, r2, a, r2.commits@[c].parents@[k] as int);
            assert(0 <= k < r1.commits@[c].parents@.len() && (r1.commits@[c].parents@[k] as int)
                < c && is_ancestor(r1, a, r1.commits@[c].parents@[k] as int));
        }
    }
}

/// All parents of commit `j` are marked in `mask`.
pub open spec fn parents_marked(r: Repo, mask: Seq<bool>, j: int) -> bool {
    forall|k: int|
        0 <= k < r.commits@[j].parents@.len() ==> mask[r.commits@[j].parents@[k] as int]
}

/// Marking more commits cannot unmark a commit's parents.
pub proof fn lemma_parents_marked_mono(r: Repo, m1: Seq<bool>, m2: Seq<bool>, j: int)
    requires
        repo_wf(r),
        0 <= j < r.commits@.len(),
        m1.len() == r.commits@.len(),
        m2.len() == r.commits@.len(),
        parents_marked(r, m1, j),
        forall|x: int| 0 <= x < m1.len() && m1[x] ==> m2[x],
    ensures
        parents_marked(r, m2, j),
{
    assert(commit_wf(r, j));
    assert forall|k: int|
        0 <= k < r.commits@[j].parents@.len() implies m2[r.commits@[j].parents@[k] as int] by {
        assert(m1[r.commits@[j].parents@[k] as int]);
    }
}

/// In a mask that is closed under parents, every ancestor of a marked commit
/// is marked.
pub proof fn lemma_closed_marked(r: Repo, mask: Seq<bool>, a: int, c: int)
    requires
        repo_wf(r),
        mask.len() == r.commits@.len(),
        0 <= c < r.commits@.len(),
        mask[c],
        forall|j: int| 0 <= j < mask.len() && mask[j] ==> parents_marked(r, mask, j),
        is_ancestor(r, a, c),
    ensures
        0 <= a < mask.len() && mask[a],
    decreases c,
{
    lemma_ancestor_range(r, a, c);
    if c != a {
        let k = choose|k: int|
            0 <= k < r.commits@[c].parents@.len() && (r.commits@[c].parents@[k] as int) < c
                && is_ancestor(r, a, r.commits@[c].parents@[k] as int);
        assert(commit_wf(r, c));
        assert(parents_marked(r, mask, c));
        assert(mask[r.commits@[c].parents@[k] as int]);
        lemma_closed_marked(r, mask, a, r.commits@[c].parents@[k] as int);
    }
}

/// One `bool` per commit: `true` exactly on the ancestors of `top`.
pub fn ancestor_mask(r: &Repo, top: usize) -> (mask: Vec<bool>)
    requires
        repo_wf(*r),
        (top as int) < r.commits@.len(),
    ensures
        mask@.len() == r.commits@.len(),
        forall|j: int| 0 <= j < mask@.len() ==> (mask@[j] <==> is_ancestor(*r, j, top as int)),
{
    let n = r.commits.len();
    let mut mask: Vec<bool> = Vec::new();
    let mut f: usize = 0;
    while f < n
        invariant
            f <= n,
            mask@.len() == f,
            forall|j: int| 0 <= j < f ==> !mask@[j],
        decreases n - f,
    {
        mask.push(false);
        f += 1;
    }
    mask.set(top, true);
    assert(is_ancestor(*r, top as int, top as int));
    let mut i: usize = top + 1;
    while i > 0
        invariant
            i <= top + 1,
            (top as int) < r.commits@.len(),
            repo_wf(*r),
            mask@.len() == r.commits@.len(),
            mask@[top as int],
            forall|j: int| 0 <= j < mask@.len() && mask@[j] ==> is_ancestor(*r, j, top as int),
            forall|j: int| i <= j < mask@.len() && mask@[j] ==> parents_marked(*r, mask@, j),
            forall|j: int| top < j < mask@.len() ==> !mask@[j],
        decreases i,
    {
        i -= 1;
        if mask[i] {
            let ghost mask0 = mask@;
            let mut k: usize = 0;
            while k < r.commits[i].parents.len()
                invariant
                    (i as int) < r.commits@.len(),
                    (top as int) < r.commits@.len(),
                    repo_wf(*r),
                    k <= r.commits@[i as int].parents@.len(),
                    mask@.len() == r.commits@.len(),
                    mask0.len() == mask@.len(),
                    mask@[i as int],
                    mask@[top as int],
                    is_ancestor(*r, i as int, top as int),
                    forall|j: int| 0 <= j < mask@.len() && mask0[j] ==> mask@[j],
                    forall|j: int| 0 <= j < mask@.len() && mask@[j] && !mask0[j] ==> j < i,
                    forall|j: int|
                        0 <= j < mask@.len() && mask@[j] ==> is_ancestor(*r, j, top as int),
                    forall|j: int|
                        i < j < mask@.len() && mask@[j] ==> parents_marked(*r, mask@, j),
                    forall|j: int| top < j < mask@.len() ==> !mask@[j],
                    forall|kk: int|
                        0 <= kk < k ==> mask@[r.commits@[i as int].parents@[kk] as int],
                decreases r.commits@[i as int].parents@.len() - k,
            {
                proof {
                    assert(commit_wf(*r, i as int));
                    lemma_ancestor_parent(*r, top as int, i as int, k as int);
                }
                let p = r.commits[i].parents[k];
                let ghost mprev = mask@;
                mask.set(p, true);
                k += 1;
                proof {
                    assert((p as int) < i as int);
                    assert forall|j: int|
                        i < j < mask@.len() && mask@[j] implies parents_marked(*r, mask@, j) by {
                        assert(mprev[j]);
                        assert(parents_marked(*r, mprev, j));
                        lemma_parents_marked_mono(*r, mprev, mask@, j);
                    }
                }
            }
            proof {
                assert(parents_marked(*r, mask@, i as int));
                assert forall|j: int|
                    i <= j < mask@.len() && mask@[j] implies parents_marked(*r, mask@, j) by {
                    if j != i {
                        assert(mask0[j]);
                        assert(parents_marked(*r, mask0, j));
                        lemma_parents_marked_mono(*r, mask0, mask@, j);
                    }
                }
            }
        }
    }
    proof {
        assert forall|j: int|
            0 <= j < mask@.len() && is_ancestor(*r, j, top as int) implies mask@[j] by {
            lemma_closed_marked(*r, mask@, j, top as int);
        }
    }
    mask
}

/// `m` is an ancestor of the first `q` candidates.
pub open spec fn common_upto(r: Repo, cands: Seq<usize>, q: int, m: int) -> bool {
    forall|qq: int| 0 <= qq < q ==> is_ancestor(r, m, cands[qq] as int)
}

/// `m` is an ancestor of every candidate.
pub open spec fn common_ancestor(r: Repo, cands: Seq<usize>, m: int) -> bool {
    common_upto(r, cands, cands.len() as int, m)
}

/// `m` is a best common ancestor of the candidates: a common ancestor such
/// that no other common ancestor descends from it.
pub open spec fn is_merge_base(r: Repo, cands: Seq<usize>, m: int) -> bool {
    &&& 0 <= m < r.commits@.len()
    &&& common_ancestor(r, cands, m)
    &&& forall|c: int|
        0 <= c < r.commits@.len() && c != m && common_ancestor(r, cands, c) ==> !is_ancestor(
            r,
            m,
            c,
        )
}

/// All best common ancestors of the candidate commits.
pub fn merge_bases(r: &Repo, cands: &Vec<usize>) -> (out: Vec<usize>)
    requires
        repo_wf(*r),
        forall|q: int| 0 <= q < cands@.len() ==> (cands@[q] as int) < r.commits@.len(),
    ensures
        forall|j: int| 0 <= j < out@.len() ==> is_merge_base(*r, cands@, out@[j] as int),
        forall|m: int|
            0 <= m < r.commits@.len() && is_merge_base(*r, cands@, m) ==> exists|j: int|
                0 <= j < out@.len() && out@[j] as int == m,
{
    let n = r.commits.len();
    let mut common: Vec<bool> = Vec::new();
    let mut f: usize = 0;
    while f < n
        invariant
            f <= n,
            common@.len() == f,
            forall|m: int| 0 <= m < f ==> common@[m],
        decreases n - f,
    {
        common.push(true);
        f += 1;
    }
    let mut q: usize = 0;
    while q < cands.len()
        invariant
            repo_wf(*r),
            forall|qq: int| 0 <= qq < cands@.len() ==> (cands@[qq] as int) < r.commits@.len(),
            q <= cands@.len(),
            common@.len() == r.commits@.len(),
            n == r.commits@.len(),
            forall|m: int| 0 <= m < n ==> (common@[m] <==> common_upto(*r, cands@, q as int, m)),
        decreases cands@.len() - q,
    {
        let cq = cands[q];
        let mq = ancestor_mask(r, cq);
        let mut m: usize = 0;
        while m < n
            invariant
                repo_wf(*r),
                (q as int) < cands@.len(),
                cands@[q as int] == cq,
                (cq as int) < r.commits@.len(),
                m <= n,
                n == r.commits@.len(),
                common@.len() == n,
                mq@.len() == n,
                forall|j: int| 0 <= j < n ==> (mq@[j] <==> is_ancestor(*r, j, cq as int)),
                forall|mm: int|
                    0 <= mm < m ==> (common@[mm] <==> common_upto(*r, cands@, q as int + 1, mm)),
                forall|mm: int|
                    m <= mm < n ==> (common@[mm] <==> common_upto(*r, cands@, q as int, mm)),
            decreases n - m,
        {
            let ghost cprev = common@;
            if !mq[m] {
                common.set(m, false);
            }
            proof {
                assert(common_upto(*r, cands@, q as int + 1, m as int) <==> (common_upto(
                    *r,
                    cands@,
                    q as int,
                    m as int,
                ) && is_ancestor(*r, m as int, cq as int))) by {
                    if common_upto(*r, cands@, q as int, m as int) && is_ancestor(
                        *r,
                        m as int,
                        cq as int,
                    ) {
                        assert forall|qq: int|
                            0 <= qq < q as int + 1 implies is_ancestor(
                            *r,
                            (m as int),
                            cands@[qq] as int,
                        ) by {}
                    }
                }
            }
            m += 1;
        }
        q += 1;
    }
    // above[m]: some other common ancestor descends from m.
    let mut above: Vec<bool> = Vec::new();
    let mut f2: usize = 0;
    while f2 < n
        invariant
            f2 <= n,
            above@.len() == f2,
            forall|m: int| 0 <= m < f2 ==> !above@[m],
        decreases n - f2,
    {
        above.push(false);
        f2 += 1;
    }
    let mut c: usize = 0;
    while c < n
        invariant
            repo_wf(*r),
            c <= n,
            n == r.commits@.len(),
            common@.len() == n,
            above@.len() == n,
            forall|m: int| 0 <= m < n ==> (common@[m] <==> common_ancestor(*r, cands@, m)),
            forall|m: int|
                0 <= m < n ==> (above@[m] <==> exists|cc: int|
                    0 <= cc < c && cc != m && common_ancestor(*r, cands@, cc) && is_ancestor(
                        *r,
                        m,
                        cc,
                    )),
        decreases n - c,
    {
        if common[c] {
            let mc = ancestor_mask(r, c);
            let mut m: usize = 0;
            while m < n
                invariant
                    repo_wf(*r),
                    (c as int) < n,
                    m <= n,
                    n == r.commits@.len(),
                    common@.len() == n,
                    above@.len() == n,
                    mc@.len() == n,
                    common@[c as int],
                    forall|j: int| 0 <= j < n ==> (mc@[j] <==> is_ancestor(*r, j, c as int)),
                    forall|mm: int| 0 <= mm < n ==> (common@[mm] <==> common_ancestor(*r, cands@, mm)),
                    forall|mm: int|
                        0 <= mm < m ==> (above@[mm] <==> exists|cc: int|
                            0 <= cc < c + 1 && cc != mm && common_ancestor(*r, cands@, cc)
                                && is_ancestor(*r, mm, cc)),
                    forall|mm: int|
                        m <= mm < n ==> (above@[mm] <==> exists|cc: int|
                            0 <= cc < c && cc != mm && common_ancestor(*r, cands@, cc)
                                && is_ancestor(*r, mm, cc)),
                decreases n - m,
            {
                let ghost aprev = above@;
                if m != c && mc[m] {
                    above.set(m, true);
                }
                proof {
                    let cs = cands@;
                    if above@[m as int] {
                        if aprev[m as int] {
                            let cc = choose|cc: int|
                                0 <= cc < c && cc != m as int && common_ancestor(*r, cs, cc)
                                    && is_ancestor(*r, m as int, cc);
                            assert(0 <= cc < c + 1 && cc != m as int && common_ancestor(*r, cs, cc)
                                && is_ancestor(*r, m as int, cc));
                        } else {
                            assert(0 <= (c as int) < c + 1 && (c as int) != m as int
                                && common_ancestor(*r, cs, c as int) && is_ancestor(
                                *r,
                                m as int,
                                c as int,
                            ));
                        }
                    } else {
                        assert forall|cc: int|
                            0 <= cc < c + 1 && cc != m as int && common_ancestor(*r, cs, cc)
                                implies !is_ancestor(*r, m as int, cc) by {
                            if cc == c as int {
                                assert(!mc@[m as int]);
                            }
                        }
                    }
                }
                m += 1;
            }
        } else {
            proof {
                assert forall|mm: int|
                    0 <= mm < n implies (above@[mm] <==> exists|cc: int|
                        0 <= cc < c + 1 && cc != mm && common_ancestor(*r, cands@, cc)
                            && is_ancestor(*r, mm, cc)) by {
                    if above@[mm] {
                        let cc = choose|cc: int|
                            0 <= cc < c && cc != mm && common_ancestor(*r, cands@, cc)
                                && is_ancestor(*r, mm, cc);
                        assert(0 <= cc < c + 1 && cc != mm && common_ancestor(*r, cands@, cc)
                            && is_ancestor(*r, mm, cc));
                    } else {
                        assert forall|cc: int|
                            0 <= cc < c + 1 && cc != mm && common_ancestor(*r, cands@, cc)
                                implies !is_ancestor(*r, mm, cc) by {
                            if cc == c as int {
                                assert(!common@[cc]);
                            }
                        }
                    }
                }
            }
        }
        c += 1;
    }
    let mut out: Vec<usize> = Vec::new();
    let mut m: usize = 0;
    while m < n
        invariant
            repo_wf(*r),
            m <= n,
            n == r.commits@.len(),
            common@.len() == n,
            above@.len() == n,
            forall|mm: int| 0 <= mm < n ==> (common@[mm] <==> common_ancestor(*r, cands@, mm)),
            forall|mm: int|
                0 <= mm < n ==> (above@[mm] <==> exists|cc: int|
                    0 <= cc < n && cc != mm && common_ancestor(*r, cands@, cc) && is_ancestor(
                        *r,
                        mm,
                        cc,
                    )),
            forall|j: int| 0 <= j < out@.len() ==> is_merge_base(*r, cands@, out@[j] as int),
            forall|mm: int|
                0 <= mm < m && is_merge_base(*r, cands@, mm) ==> exists|j: int|
                    0 <= j < out@.len() && out@[j] as int == mm,
        decreases n - m,
    {
        let ghost oprev = out@;
        if common[m] && !above[m] {
            out.push(m);
            proof {
                assert(out@[out@.len() - 1] as int == m as int);
            }
        }
        proof {
            if is_merge_base(*r, cands@, m as int) {
                assert(common@[m as int]);
                assert(!above@[m as int]);
            }
            if common@[m as int] && !above@[m as int] {
                assert(is_merge_base(*r, cands@, m as int));
            }
            assert forall|mm: int|
                0 <= mm < m + 1 && is_merge_base(*r, cands@, mm) implies exists|j: int|
                0 <= j < out@.len() && out@[j] as int == mm by {
                if mm < m as int {
                    let j = choose|j: int| 0 <= j < oprev.len() && oprev[j] as int == mm;
                    assert(out@[j] as int == mm);
                }
            }
        }
        m += 1;
    }
    out
}

/// True iff `branch_id` descends from at least one of the given commits.
pub fn any_descend(r: &Repo, branch_id: usize, bases: &Vec<usize>) -> (out: bool)
    requires
        repo_wf(*r),
        (branch_id as int) < r.commits@.len(),
        forall|q: int| 0 <= q < bases@.len() ==> (bases@[q] as int) < r.commits@.len(),
    ensures
        out <==> exists|j: int|
            0 <= j < bases@.len() && is_ancestor(*r, bases@[j] as int, branch_id as int),
{
    let mask = ancestor_mask(r, branch_id);
    let mut j: usize = 0;
    while j < bases.len()
        invariant
            repo_wf(*r),
            (branch_id as int) < r.commits@.len(),
            forall|q: int| 0 <= q < bases@.len() ==> (bases@[q] as int) < r.commits@.len(),
            j <= bases@.len(),
            mask@.len() == r.commits@.len(),
            forall|x: int|
                0 <= x < mask@.len() ==> (mask@[x] <==> is_ancestor(*r, x, branch_id as int)),
            forall|jj: int|
                0 <= jj < j ==> !is_ancestor(*r, bases@[jj] as int, branch_id as int),
        decreases bases@.len() - j,
    {
        if mask[bases[j]] {
            return true;
        }
        j += 1;
    }
    false
}

} // verus!
