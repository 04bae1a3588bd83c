use patch_pilers::add_renames::add_renames;
use patch_pilers::delete_merged::{delete_merged, is_safe_to_delete};
use patch_pilers::diff::{is_rename_pattern, tree_diff, ChangeEntry, Delta};
use patch_pilers::model::{Branch, Commit, Head, Repo, Signature, Tree, TreeEntry};
use patch_pilers::multi_status::{count_unique_commits, merge_base, multi_status};
use patch_pilers::rename::{apply_rename, normalize, rewrite_message, Emitted, RewriteError};

fn sig(name: &str) -> Signature {
    Signature { name: name.as_bytes().to_vec(), email: b"t@example.com".to_vec(), when: 7 }
}

fn entry(path: &str, oid: u64) -> TreeEntry {
    TreeEntry { path: path.as_bytes().to_vec(), mode: 33188, oid }
}

fn commit(parents: Vec<usize>, tree: usize, msg: &str) -> Commit {
    Commit {
        parents,
        tree,
        author: sig("alice"),
        committer: sig("bob"),
        message: msg.as_bytes().to_vec(),
    }
}

fn branch(name: &str, target: usize) -> Branch {
    Branch { name: name.as_bytes().to_vec(), remote: false, target, upstream: None }
}

fn change(status: Delta, old_path: Option<&str>, new_path: Option<&str>) -> ChangeEntry {
    ChangeEntry {
        status,
        old_path: old_path.map(|p| p.as_bytes().to_vec()),
        new_path: new_path.map(|p| p.as_bytes().to_vec()),
    }
}

fn lookup(t: &Tree, path: &str) -> Option<u64> {
    t.entries.iter().find(|e| e.path == path.as_bytes()).map(|e| e.oid)
}

/// A three-commit linear history: root, then an unrecorded rename, then an
/// ordinary edit.  Trees: 0 = {a}, 1 = {b}, 2 = {b'}.
fn rename_history() -> Repo {
    Repo {
        commits: vec![
            commit(vec![], 0, "init"),
            commit(vec![0], 1, "feat: move it"),
            commit(vec![1], 2, "edit"),
        ],
        trees: vec![
            Tree { entries: vec![entry("a.txt", 11)] },
            Tree { entries: vec![entry("b.txt", 11)] },
            Tree { entries: vec![entry("b.txt", 12)] },
        ],
        branches: vec![branch("main", 2)],
        head: Head::OnBranch(0),
    }
}

#[test]
fn message_rewrite_replaces_scope_prefix() {
    let out = rewrite_message(&b"feat: move it".to_vec());
    assert_eq!(out, b"chore(rename):  move it".to_vec());
}

#[test]
fn message_rewrite_leaves_other_messages_alone() {
    assert_eq!(rewrite_message(&b"no prefix here".to_vec()), b"no prefix here".to_vec());
    assert_eq!(rewrite_message(&b"Feat: upper".to_vec()), b"Feat: upper".to_vec());
    assert_eq!(rewrite_message(&b": empty scope".to_vec()), b": empty scope".to_vec());
    assert_eq!(rewrite_message(&b"".to_vec()), b"".to_vec());
}

#[test]
fn pattern_is_one_deletion_one_addition_either_order() {
    let d = change(Delta::Deleted, Some("a"), None);
    let a = change(Delta::Added, None, Some("b"));
    assert!(is_rename_pattern(&vec![
        change(Delta::Deleted, Some("a"), None),
        change(Delta::Added, None, Some("b")),
    ]));
    assert!(is_rename_pattern(&vec![a, d]));
}

#[test]
fn pattern_rejects_other_shapes() {
    assert!(!is_rename_pattern(&vec![]));
    assert!(!is_rename_pattern(&vec![change(Delta::Deleted, Some("a"), None)]));
    assert!(!is_rename_pattern(&vec![
        change(Delta::Deleted, Some("a"), None),
        change(Delta::Deleted, Some("b"), None),
    ]));
    assert!(!is_rename_pattern(&vec![
        change(Delta::Deleted, Some("a"), None),
        change(Delta::Modified, Some("b"), Some("b")),
    ]));
    assert!(!is_rename_pattern(&vec![
        change(Delta::Deleted, Some("a"), None),
        change(Delta::Added, None, Some("b")),
        change(Delta::Added, None, Some("c")),
    ]));
}

#[test]
fn tree_diff_lists_deletions_then_additions() {
    let old_t = Tree { entries: vec![entry("a.txt", 11), entry("keep.txt", 5)] };
    let new_t = Tree { entries: vec![entry("b.txt", 11), entry("keep.txt", 5)] };
    let d = tree_diff(&old_t, &new_t);
    assert_eq!(d.len(), 2);
    assert_eq!(d[0].status, Delta::Deleted);
    assert_eq!(d[0].old_path, Some(b"a.txt".to_vec()));
    assert_eq!(d[1].status, Delta::Added);
    assert_eq!(d[1].new_path, Some(b"b.txt".to_vec()));
}

#[test]
fn apply_rename_moves_content_untouched() {
    let parent = Tree { entries: vec![entry("a.txt", 11), entry("keep.txt", 5)] };
    let t = apply_rename(&parent, &b"a.txt".to_vec(), &b"c.txt".to_vec()).unwrap();
    assert_eq!(lookup(&t, "c.txt"), Some(11));
    assert_eq!(lookup(&t, "keep.txt"), Some(5));
    assert_eq!(lookup(&t, "a.txt"), None);
    assert_eq!(t.entries.len(), 2);
}

#[test]
fn apply_rename_missing_old_path_fails() {
    let parent = Tree { entries: vec![entry("a.txt", 11)] };
    let e = apply_rename(&parent, &b"zz.txt".to_vec(), &b"c.txt".to_vec()).unwrap_err();
    assert_eq!(e, RewriteError::OldPathNotInParent);
}

#[test]
fn normalize_emits_two_commits_for_the_pattern() {
    let mut r = rename_history();
    r.branches.push(branch("dest", 0));
    let diff = vec![
        change(Delta::Deleted, Some("a.txt"), None),
        change(Delta::Added, None, Some("b.txt")),
    ];
    let em = normalize(&mut r, 1, &diff, 1, 0).unwrap();
    match em {
        Emitted::Renamed(id1, id2) => {
            assert_eq!((id1, id2), (3, 4));
            assert_eq!(r.commits[3].message, b"chore(rename):  move it".to_vec());
            assert_eq!(r.commits[4].message, b"feat: move it".to_vec());
            assert_eq!(r.commits[4].tree, 1);
            assert_eq!(r.branches[1].target, 4);
        }
        Emitted::Unchanged(_) => panic!("expected a rename"),
    }
}

#[test]
fn normalize_replays_other_commits_verbatim() {
    let mut r = rename_history();
    r.branches.push(branch("dest", 0));
    let diff = vec![change(Delta::Modified, Some("b.txt"), Some("b.txt"))];
    let em = normalize(&mut r, 2, &diff, 1, 0).unwrap();
    match em {
        Emitted::Unchanged(id) => {
            assert_eq!(id, 3);
            assert_eq!(r.commits[3].tree, 2);
            assert_eq!(r.commits[3].message, b"edit".to_vec());
            assert_eq!(r.commits[3].parents, vec![0]);
        }
        Emitted::Renamed(_, _) => panic!("expected a verbatim replay"),
    }
}

#[test]
fn normalize_rejects_malformed_rename_rows() {
    let mut r = rename_history();
    r.branches.push(branch("dest", 0));
    let no_old = vec![change(Delta::Deleted, None, None), change(Delta::Added, None, Some("b"))];
    assert_eq!(normalize(&mut r, 1, &no_old, 1, 0).unwrap_err(), RewriteError::MissingDeletedPath);
    let no_new = vec![change(Delta::Deleted, Some("a.txt"), None), change(Delta::Added, None, None)];
    assert_eq!(normalize(&mut r, 1, &no_new, 1, 0).unwrap_err(), RewriteError::MissingAddedPath);
    let bad_old =
        vec![change(Delta::Deleted, Some("zz.txt"), None), change(Delta::Added, None, Some("b"))];
    assert_eq!(normalize(&mut r, 1, &bad_old, 1, 0).unwrap_err(), RewriteError::OldPathNotInParent);
    assert_eq!(r.commits.len(), 3, "failed normalizations must write nothing");
}

#[test]
fn rewrite_normalizes_the_rename_and_chains_parents() {
    let mut r = rename_history();
    let name = add_renames(&mut r, 0).unwrap();
    assert_eq!(name, b"pp-rename/main".to_vec());
    // one rename commit, its content commit, and one verbatim replay
    assert_eq!(r.commits.len(), 6);
    assert_eq!(r.commits[3].parents, vec![0], "first emitted commit sits on `since`");
    assert_eq!(r.commits[4].parents, vec![3]);
    assert_eq!(r.commits[5].parents, vec![4]);
    // the synthetic rename commit: parent tree with a.txt moved to b.txt
    assert_eq!(r.commits[3].message, b"chore(rename):  move it".to_vec());
    let t3 = &r.trees[r.commits[3].tree];
    assert_eq!(lookup(t3, "b.txt"), Some(11), "content id follows the path");
    assert_eq!(lookup(t3, "a.txt"), None);
    // the content commit and the verbatim replay keep their trees and texts
    assert_eq!(r.commits[4].tree, 1);
    assert_eq!(r.commits[4].message, b"feat: move it".to_vec());
    assert_eq!(r.commits[5].tree, 2);
    assert_eq!(r.commits[5].message, b"edit".to_vec());
    // the destination branch points at the last emitted commit
    assert_eq!(r.branches.len(), 2);
    assert_eq!(r.branches[1].name, b"pp-rename/main".to_vec());
    assert_eq!(r.branches[1].target, 5);
}

#[test]
fn rewrite_twice_hits_the_destination_guard() {
    let mut r = rename_history();
    add_renames(&mut r, 0).unwrap();
    let before = r.commits.len();
    let e = add_renames(&mut r, 0).unwrap_err();
    assert_eq!(e, RewriteError::DestinationExists);
    assert_eq!(r.commits.len(), before, "a refused rewrite performs no writes");
    assert_eq!(r.branches.len(), 2);
}

#[test]
fn rewrite_rejects_merges_after_the_valid_prefix() {
    let mut r = Repo {
        commits: vec![
            commit(vec![], 0, "init"),
            commit(vec![0], 1, "edit"),
            commit(vec![0, 1], 1, "merge"),
        ],
        trees: vec![
            Tree { entries: vec![entry("a.txt", 11)] },
            Tree { entries: vec![entry("a.txt", 12)] },
        ],
        branches: vec![branch("main", 2)],
        head: Head::OnBranch(0),
    };
    let e = add_renames(&mut r, 0).unwrap_err();
    assert_eq!(e, RewriteError::MergeInHistory);
    // only the single-parent commit before the merge was replayed
    assert_eq!(r.commits.len(), 4);
    assert_eq!(r.commits[3].parents, vec![0]);
    assert_eq!(r.branches[1].target, 3);
}

#[test]
fn rewrite_requires_a_local_head_branch() {
    let mut r = rename_history();
    r.head = Head::Detached(2);
    assert_eq!(add_renames(&mut r, 0).unwrap_err(), RewriteError::NotOnLocalBranch);
    let mut r2 = rename_history();
    r2.branches[0].remote = true;
    assert_eq!(add_renames(&mut r2, 0).unwrap_err(), RewriteError::NotOnLocalBranch);
}

#[test]
fn rewrite_rejects_an_unknown_starting_commit() {
    let mut r = rename_history();
    assert_eq!(add_renames(&mut r, 9).unwrap_err(), RewriteError::UnknownRevision);
    assert_eq!(r.commits.len(), 3);
}

#[test]
fn branch_at_head_is_safe_to_delete() {
    let r = Repo {
        commits: vec![commit(vec![], 0, "init"), commit(vec![0], 0, "work")],
        trees: vec![Tree { entries: vec![] }],
        branches: vec![branch("main", 1), branch("copy", 1)],
        head: Head::OnBranch(0),
    };
    assert!(is_safe_to_delete(&r, 1));
}

#[test]
fn branch_sharing_no_history_is_not_safe() {
    let r = Repo {
        commits: vec![commit(vec![], 0, "root one"), commit(vec![], 0, "root two")],
        trees: vec![Tree { entries: vec![] }],
        branches: vec![branch("main", 0), branch("stray", 1)],
        head: Head::OnBranch(0),
    };
    assert!(!is_safe_to_delete(&r, 1));
}

#[test]
fn safety_report_covers_local_branches_in_order() {
    let mut stray = branch("stray", 1);
    stray.remote = false;
    let mut remote = branch("origin/main", 0);
    remote.remote = true;
    let r = Repo {
        commits: vec![commit(vec![], 0, "root one"), commit(vec![], 0, "root two")],
        trees: vec![Tree { entries: vec![] }],
        branches: vec![branch("main", 0), stray, remote],
        head: Head::OnBranch(0),
    };
    let report = delete_merged(&r);
    assert_eq!(report.len(), 2, "remote-tracking branches are skipped");
    assert_eq!(report[0].name, b"main".to_vec());
    assert!(report[0].safe);
    assert_eq!(report[1].name, b"stray".to_vec());
    assert!(!report[1].safe);
}

/// Base commit 0; the branch adds commits 1, 2, 3 (N = 3); the head adds
/// commits 4, 5 (M = 2).
fn diverged_history() -> Repo {
    Repo {
        commits: vec![
            commit(vec![], 0, "base"),
            commit(vec![0], 0, "x1"),
            commit(vec![1], 0, "x2"),
            commit(vec![2], 0, "x3"),
            commit(vec![0], 0, "m1"),
            commit(vec![4], 0, "m2"),
        ],
        trees: vec![Tree { entries: vec![] }],
        branches: vec![branch("main", 5), branch("x", 3)],
        head: Head::OnBranch(0),
    }
}

#[test]
fn merge_base_picks_the_fork_point() {
    let r = diverged_history();
    assert_eq!(merge_base(&r, 3, 5), Some(0));
    assert_eq!(merge_base(&r, 5, 5), Some(5));
}

#[test]
fn merge_base_is_none_for_disjoint_roots() {
    let r = Repo {
        commits: vec![commit(vec![], 0, "root one"), commit(vec![], 0, "root two")],
        trees: vec![Tree { entries: vec![] }],
        branches: vec![branch("main", 0)],
        head: Head::OnBranch(0),
    };
    assert_eq!(merge_base(&r, 0, 1), None);
}

#[test]
fn divergence_count_is_the_branch_side_only() {
    let r = diverged_history();
    let base = merge_base(&r, 3, 5).unwrap();
    assert_eq!(count_unique_commits(&r, 3, base), 3, "N commits, independent of M");
    assert_eq!(count_unique_commits(&r, 5, base), 2);
}

#[test]
fn status_report_counts_every_branch() {
    let r = diverged_history();
    let report = multi_status(&r).unwrap();
    assert_eq!(report.len(), 2);
    assert_eq!(report[0].name, b"main".to_vec());
    assert_eq!(report[0].unique, 0, "the head branch has nothing beyond its own tip");
    assert_eq!(report[1].name, b"x".to_vec());
    assert_eq!(report[1].unique, 3);
}

#[test]
fn status_report_fails_without_a_merge_base() {
    let r = Repo {
        commits: vec![commit(vec![], 0, "root one"), commit(vec![], 0, "root two")],
        trees: vec![Tree { entries: vec![] }],
        branches: vec![branch("main", 0), branch("stray", 1)],
        head: Head::OnBranch(0),
    };
    assert!(matches!(
        multi_status(&r),
        Err(patch_pilers::multi_status::StatusError::NoMergeBase)
    ));
}

#[test]
fn rewrite_of_an_empty_range_only_creates_the_branch() {
    let mut r = rename_history();
    let name = add_renames(&mut r, 2).unwrap();
    assert_eq!(name, b"pp-rename/main".to_vec());
    assert_eq!(r.commits.len(), 3, "nothing to replay");
    assert_eq!(r.branches.len(), 2);
    assert_eq!(r.branches[1].target, 2, "the destination stays at `since`");
}

#[test]
fn wf_check_accepts_well_formed_repositories() {
    assert!(patch_pilers::model::repo_wf_check(&rename_history()));
    assert!(patch_pilers::model::repo_wf_check(&diverged_history()));
}

#[test]
fn wf_check_rejects_forward_parent_links() {
    let mut r = rename_history();
    r.commits[0].parents = vec![2];
    assert!(!patch_pilers::model::repo_wf_check(&r));
    let mut r2 = rename_history();
    r2.branches[0].target = 9;
    assert!(!patch_pilers::model::repo_wf_check(&r2));
}
