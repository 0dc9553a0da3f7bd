use aish::git_repo::{evaluate_guard, DirtyDetails, GitError, Observation, SyncOptions};

fn details(n: usize) -> DirtyDetails {
    DirtyDetails { changed_paths: n, sample: vec![" M src/x.rs".into()] }
}

#[test]
fn on_trunk_clean_passes_both_modes() {
    assert!(evaluate_guard(false, Some("main"), "main", true, None, SyncOptions::default()).is_ok());
    assert!(
        evaluate_guard(false, Some("main"), "main", true, None, SyncOptions::permissive()).is_ok()
    );
}

#[test]
fn feature_branch_strict_is_not_on_trunk() {
    let e = evaluate_guard(false, Some("feat/foo"), "main", false, None, SyncOptions::default())
        .unwrap_err();
    match e {
        GitError::NotOnTrunk { current_branch, trunk } => {
            assert_eq!(current_branch, "feat/foo");
            assert_eq!(trunk, "main");
        }
        other => panic!("expected NotOnTrunk, got {other:?}"),
    }
}

#[test]
fn feature_branch_permissive_passes() {
    assert!(
        evaluate_guard(false, Some("feat/foo"), "main", false, None, SyncOptions::permissive())
            .is_ok()
    );
}

#[test]
fn detached_strict_is_detached_permissive_passes() {
    assert!(matches!(
        evaluate_guard(true, None, "main", false, None, SyncOptions::default()).unwrap_err(),
        GitError::DetachedHead
    ));
    assert!(evaluate_guard(true, None, "main", false, None, SyncOptions::permissive()).is_ok());
}

#[test]
fn dirty_only_fails_when_require_clean() {
    assert!(evaluate_guard(
        false,
        Some("main"),
        "main",
        true,
        Some(&details(2)),
        SyncOptions::default()
    )
    .is_ok());
    let opts = SyncOptions { require_trunk: true, require_clean: true };
    match evaluate_guard(false, Some("main"), "main", true, Some(&details(3)), opts).unwrap_err() {
        GitError::Dirty(d) => assert_eq!(d.changed_paths, 3),
        other => panic!("expected Dirty, got {other:?}"),
    }
    assert!(evaluate_guard(false, Some("main"), "main", true, None, opts).is_ok());
}

#[test]
fn master_trunk_is_honoured() {
    assert!(
        evaluate_guard(false, Some("master"), "master", true, None, SyncOptions::default()).is_ok()
    );
    assert!(matches!(
        evaluate_guard(false, Some("main"), "master", false, None, SyncOptions::default())
            .unwrap_err(),
        GitError::NotOnTrunk { .. }
    ));
}

fn seen(branch: Option<&str>, porcelain: &[&str]) -> Observation {
    Observation {
        repo_key: "o--r".into(),
        path: "/repos/r/sub".into(),
        toplevel: Some("/repos/r".into()),
        remote_url: Some("https://github.com/o/r.git".into()),
        trunk_branch: "main".into(),
        current_branch: branch.map(String::from),
        head_sha: Some("deadbeef".into()),
        porcelain: porcelain.iter().map(|s| s.to_string()).collect(),
    }
}

#[test]
fn strict_syncs_record_the_trunk_only() {
    let strict = SyncOptions::default();
    let s = seen(Some("main"), &[" M a"]).resolve(strict).unwrap();
    assert!(s.on_trunk && s.dirty);
    assert_eq!(s.root, "/repos/r");
    assert_eq!(s.head_sha, "deadbeef");
    assert_eq!(s.synced_at, "");
    assert!(matches!(
        seen(Some("feat"), &[]).resolve(strict).unwrap_err(),
        GitError::NotOnTrunk { current_branch, .. } if current_branch == "feat"
    ));
    assert!(matches!(seen(None, &[]).resolve(strict).unwrap_err(), GitError::DetachedHead));
    let s = seen(Some("feat"), &[]).resolve(SyncOptions::permissive()).unwrap();
    assert!(!s.on_trunk && !s.dirty);
}

#[test]
fn a_dirty_tree_is_sampled() {
    let opts = SyncOptions { require_trunk: false, require_clean: true };
    match seen(None, &["1", "2", "3", "4", "5", "6"]).resolve(opts).unwrap_err() {
        GitError::Dirty(d) => {
            assert_eq!(d.changed_paths, 6);
            assert_eq!(d.sample, ["1", "2", "3", "4", "5"]);
        }
        other => panic!("{other:?}"),
    }
    let mut o = seen(None, &[]);
    o.toplevel = None;
    o.head_sha = None;
    let s = o.resolve(opts).unwrap();
    assert_eq!(s.root, "/repos/r/sub");
    assert_eq!(s.head_sha, "");
}

#[test]
fn git_errors_speak() {
    assert_eq!(GitError::NotAGitRepo.message(), "not a git repository");
    assert_eq!(
        GitError::NotOnTrunk { current_branch: "f".into(), trunk: "main".into() }.message(),
        "on branch `f`, not the trunk `main` — refusing to sync repo state"
    );
    assert_eq!(GitError::Dirty(details(3)).message(), "working tree has 3 uncommitted change(s)");
    assert_eq!(GitError::Io("x".into()).message(), "git io error: x");
    assert_eq!(GitError::DetachedHead.message(), "detached HEAD — no current branch to check");
}
