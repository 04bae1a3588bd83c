//! The object-graph model: commits, trees and branches held as plain values.
//!
//! A commit identifier is an index into `Repo::commits`, a tree identifier an
//! index into `Repo::trees`.  Identifiers of blobs (and of subtrees hanging
//! below a tree entry) are opaque `u64` content ids: the engine never looks
//! inside them, it only preserves them.  Because every commit's parents must
//! have smaller indices than the commit itself, the graph is acyclic by
//! construction, which mirrors an append-only content-addressed store where a
//! commit can only point at objects that already exist.

use vstd::prelude::*;

verus! {

/// Authorship data carried by a commit: a name, an e-mail address, and a
/// timestamp in seconds.
pub struct Signature {
    pub name: Vec<u8>,
    pub email: Vec<u8>,
    pub when: i64,
}

/// The two signatures agree field for field.
pub open spec fn sig_like(a: Signature, b: Signature) -> bool {
    a.name@ == b.name@ && a.email@ == b.email@ && a.when == b.when
}

/// One row of a tree: a relative path bound to a mode and the content id of
/// a blob or subtree.
#[derive(Debug)]
pub struct TreeEntry {
    pub path: Vec<u8>,
    pub mode: u32,
    pub oid: u64,
}

/// An ordered mapping from path to (mode, content id).
#[derive(Debug)]
pub struct Tree {
    pub entries: Vec<TreeEntry>,
}

/// No two entries of the tree share a path.
pub open spec fn tree_wf(t: Tree) -> bool {
    forall|i: int, j: int|
        0 <= i < j < t.entries@.len() ==> t.entries@[i].path@ != t.entries@[j].path@
}

/// The tree binds the path `p`.
pub open spec fn tree_has(t: Tree, p: Seq<u8>) -> bool {
    exists|i: int| 0 <= i < t.entries@.len() && t.entries@[i].path@ == p
}

/// The (mode, content id) pair bound to path `p`; meaningful when
/// `tree_has(t, p)` holds and the tree is well formed.
pub open spec fn tree_entry_at(t: Tree, p: Seq<u8>) -> (u32, u64) {
    let i = choose|i: int| 0 <= i < t.entries@.len() && t.entries@[i].path@ == p;
    (t.entries@[i].mode, t.entries@[i].oid)
}

/// The tree as a finite map from path to (mode, content id).
pub open spec fn tree_map(t: Tree) -> Map<Seq<u8>, (u32, u64)> {
    Map::new(|p: Seq<u8>| tree_has(t, p), |p: Seq<u8>| tree_entry_at(t, p))
}

/// In a well-formed tree, every entry agrees with `tree_entry_at` on its own
/// path.
pub proof fn lemma_tree_entry_at(t: Tree, i: int)
    requires
        tree_wf(t),
        0 <= i < t.entries@.len(),
    ensures
        tree_entry_at(t, t.entries@[i].path@) == (t.entries@[i].mode, t.entries@[i].oid),
{
    let p = t.entries@[i].path@;
    let j = choose|j: int| 0 <= j < t.entries@.len() && t.entries@[j].path@ == p;
    if i < j {
        assert(t.entries@[i].path@ != t.entries@[j].path@);
    } else if j < i {
        assert(t.entries@[j].path@ != t.entries@[i].path@);
    }
}

/// Index of the entry binding path `p` in the tree, if any.
pub fn tree_find(t: &Tree, p: &Vec<u8>) -> (out: Option<usize>)
    ensures
        match out {
            Some(ix) => (ix as int) < t.entries@.len() && t.entries@[ix as int].path@ == p@,
            None => !tree_has(*t, p@),
        },
{
    let mut ix: usize = 0;
    while ix < t.entries.len()
        invariant
            ix <= t.entries@.len(),
            forall|j: int| 0 <= j < ix ==> t.entries@[j].path@ != p@,
        decreases t.entries@.len() - ix,
    {
        if crate::bytes::bytes_eq(&t.entries[ix].path, p) {
            return Some(ix);
        }
        ix += 1;
    }
    None
}

/// An immutable commit: parent links, a tree, authorship and a message.
pub struct Commit {
    pub parents: Vec<usize>,
    pub tree: usize,
    pub author: Signature,
    pub committer: Signature,
    pub message: Vec<u8>,
}

/// A branch: a name bound to a commit, marked local or remote-tracking, with
/// the commit id of its configured upstream tip when one exists.
pub struct Branch {
    pub name: Vec<u8>,
    pub remote: bool,
    pub target: usize,
    pub upstream: Option<usize>,
}

/// Where the repository's head points: at a branch, or directly at a commit.
#[derive(Clone, Copy, PartialEq, Eq, Structural, Debug)]
pub enum Head {
    OnBranch(usize),
    Detached(usize),
}

/// The whole object graph: commits, trees, branch references and the head.
pub struct Repo {
    pub commits: Vec<Commit>,
    pub trees: Vec<Tree>,
    pub branches: Vec<Branch>,
    pub head: Head,
}

/// The commit at index `c` only references objects that exist, and only
/// parents with smaller indices.
pub open spec fn commit_wf(r: Repo, c: int) -> bool {
    let cm = r.commits@[c];
    (cm.tree as int) < r.trees@.len() && (forall|k: int|
        0 <= k < cm.parents@.len() ==> (cm.parents@[k] as int) < c)
}

/// The branch at index `b` only references commits that exist.
pub open spec fn branch_wf(r: Repo, b: int) -> bool {
    let br = r.branches@[b];
    (br.target as int) < r.commits@.len() && (br.upstream matches Some(u) ==> (u as int)
        < r.commits@.len())
}

/// The head references a branch or commit that exists.
pub open spec fn head_wf(r: Repo) -> bool {
    match r.head {
        Head::OnBranch(b) => (b as int) < r.branches@.len(),
        Head::Detached(c) => (c as int) < r.commits@.len(),
    }
}

/// Every reference in the repository is in range, trees bind each path once,
/// and branch names are unique.
pub open spec fn repo_wf(r: Repo) -> bool {
    (forall|c: int| 0 <= c < r.commits@.len() ==> commit_wf(r, c)) && (forall|t: int|
        0 <= t < r.trees@.len() ==> tree_wf(r.trees@[t])) && (forall|b: int|
        0 <= b < r.branches@.len() ==> branch_wf(r, b)) && (forall|i: int, j: int|
        0 <= i < j < r.branches@.len() ==> r.branches@[i].name@ != r.branches@[j].name@)
        && head_wf(r)
}

/// The commit the head stands on.
pub open spec fn head_commit(r: Repo) -> int {
    match r.head {
        Head::OnBranch(b) => r.branches@[b as int].target as int,
        Head::Detached(c) => c as int,
    }
}

/// Some branch carries the name `n`.
pub open spec fn has_branch(r: Repo, n: Seq<u8>) -> bool {
    exists|b: int| 0 <= b < r.branches@.len() && r.branches@[b].name@ == n
}

/// Decides well-formedness of a repository value, so that unverified
/// callers can test it before calling the functions that require it.
pub fn repo_wf_check(r: &Repo) -> (out: bool)
    ensures
        out == repo_wf(*r),
{
    let mut c: usize = 0;
    while c < r.commits.len()
        invariant
            c <= r.commits@.len(),
            forall|x: int| 0 <= x < c ==> commit_wf(*r, x),
        decreases r.commits@.len() - c,
    {
        if r.commits[c].tree >= r.trees.len() {
            proof {
                assert(!commit_wf(*r, c as int));
            }
            return false;
        }
        let mut k: usize = 0;
        while k < r.commits[c].parents.len()
            invariant
                (c as int) < r.commits@.len(),
                k <= r.commits@[c as int].parents@.len(),
                forall|kk: int|
                    0 <= kk < k ==> (r.commits@[c as int].parents@[kk] as int) < c as int,
            decreases r.commits@[c as int].parents@.len() - k,
        {
            if r.commits[c].parents[k] >= c {
                proof {
                    assert(!commit_wf(*r, c as int));
                }
                return false;
            }
            k += 1;
        }
        proof {
            assert(commit_wf(*r, c as int));
        }
        c += 1;
    }
    let mut t: usize = 0;
    while t < r.trees.len()
        invariant
            t <= r.trees@.len(),
            forall|x: int| 0 <= x < t ==> tree_wf(r.trees@[x]),
        decreases r.trees@.len() - t,
    {
        let mut i: usize = 0;
        while i < r.trees[t].entries.len()
            invariant
                (t as int) < r.trees@.len(),
                i <= r.trees@[t as int].entries@.len(),
                forall|x: int, y: int|
                    0 <= x < y < r.trees@[t as int].entries@.len() && x < i
                        ==> r.trees@[t as int].entries@[x].path@
                        != r.trees@[t as int].entries@[y].path@,
            decreases r.trees@[t as int].entries@.len() - i,
        {
            let mut j: usize = i + 1;
            while j < r.trees[t].entries.len()
                invariant
                    (t as int) < r.trees@.len(),
                    (i as int) < r.trees@[t as int].entries@.len(),
                    i < j <= r.trees@[t as int].entries@.len(),
                    forall|y: int|
                        (i as int) < y < j ==> r.trees@[t as int].entries@[i as int].path@
                            != r.trees@[t as int].entries@[y].path@,
                decreases r.trees@[t as int].entries@.len() - j,
            {
                if crate::bytes::bytes_eq(&r.trees[t].entries[i].path, &r.trees[t].entries[j].path)
                {
                    proof {
                        assert(!tree_wf(r.trees@[t as int]));
                    }
                    return false;
                }
                j += 1;
            }
            i += 1;
        }
        proof {
            assert(tree_wf(r.trees@[t as int]));
        }
        t += 1;
    }
    let mut b: usize = 0;
    while b < r.branches.len()
        invariant
            b <= r.branches@.len(),
            forall|x: int| 0 <= x < b ==> branch_wf(*r, x),
            forall|x: int, y: int|
                0 <= x < y < r.branches@.len() && x < b ==> r.branches@[x].name@
                    != r.branches@[y].name@,
        decreases r.branches@.len() - b,
    {
        if r.branches[b].target >= r.commits.len() {
            proof {
                assert(!branch_wf(*r, b as int));
            }
            return false;
        }
        match r.branches[b].upstream {
            Some(u) => {
                if u >= r.commits.len() {
                    proof {
                        assert(!branch_wf(*r, b as int));
                    }
                    return false;
                }
            },
            None => {},
        }
        let mut j: usize = b + 1;
        while j < r.branches.len()
            invariant
                b < j <= r.branches@.len(),
                forall|y: int|
                    (b as int) < y < j ==> r.branches@[b as int].name@ != r.branches@[y].name@,
            decreases r.branches@.len() - j,
        {
            if crate::bytes::bytes_eq(&r.branches[b].name, &r.branches[j].name) {
                proof {
                    assert(r.branches@[b as int].name@ == r.branches@[j as int].name@);
                }
                return false;
            }
            j += 1;
        }
        proof {
            assert(branch_wf(*r, b as int));
        }
        b += 1;
    }
    match r.head {
        Head::OnBranch(hb) => {
            if hb >= r.branches.len() {
                return false;
            }
        },
        Head::Detached(hc) => {
            if hc >= r.commits.len() {
                return false;
            }
        },
    }
    proof {
        assert(head_wf(*r));
        assert(repo_wf(*r));
    }
    true
}

/// Index of the branch named `n`, if any.
pub fn find_branch(r: &Repo, n: &Vec<u8>) -> (out: Option<usize>)
    ensures
        match out {
            Some(b) => (b as int) < r.branches@.len() && r.branches@[b as int].name@ == n@,
            None => !has_branch(*r, n@),
        },
{
    let mut b: usize = 0;
    while b < r.branches.len()
        invariant
            b <= r.branches@.len(),
            forall|j: int| 0 <= j < b ==> r.branches@[j].name@ != n@,
        decreases r.branches@.len() - b,
    {
        if crate::bytes::bytes_eq(&r.branches[b].name, n) {
            return Some(b);
        }
        b += 1;
    }
    None
}

} // verus!
