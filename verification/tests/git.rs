use aish::git::{
    current_branch, fallback_repo_key, file_name, probe_text, repo_key, repo_key_from_remote,
    repo_name, repo_name_from_remote, repo_prompt_line, repo_transition_note, sanitize_repo_key,
};

#[test]
fn repo_prompt_line_formats_or_collapses() {
    assert_eq!(
        repo_prompt_line(Some("owner/repo"), Some("main")),
        "Repo: owner/repo (branch main)\n"
    );
    assert_eq!(repo_prompt_line(Some("owner/repo"), None), "Repo: owner/repo\n");
    assert_eq!(repo_prompt_line(None, Some("main")), "");
    assert_eq!(repo_prompt_line(None, None), "");
}

#[test]
fn repo_transition_note_covers_every_transition() {
    assert_eq!(repo_transition_note(None, None, None), "");
    assert_eq!(
        repo_transition_note(None, Some("o/r"), Some("main")),
        "\nNote: now working in repo o/r on branch main"
    );
    assert_eq!(
        repo_transition_note(Some("a/b"), Some("c/d"), Some("dev")),
        "\nNote: repo context changed: a/b -> c/d on branch dev"
    );
    assert_eq!(
        repo_transition_note(Some("a/b"), Some("a/b"), Some("main")),
        " (repo: a/b)"
    );
    assert_eq!(
        repo_transition_note(Some("a/b"), None, None),
        "\nNote: left repo a/b; no git repo at this location"
    );
    assert_eq!(
        repo_transition_note(None, Some("o/r"), None),
        "\nNote: now working in repo o/r"
    );
}

#[test]
fn repo_name_from_remote_keeps_owner_slash_repo() {
    assert_eq!(
        repo_name_from_remote("https://github.com/LightHeart-Ventures/aish.git").as_deref(),
        Some("LightHeart-Ventures/aish")
    );
    assert_eq!(
        repo_name_from_remote("git@github.com:owner/repo.git").as_deref(),
        Some("owner/repo")
    );
    assert_eq!(
        repo_name_from_remote("ssh://git@github.com/owner/repo").as_deref(),
        Some("owner/repo")
    );
    assert_eq!(
        repo_name_from_remote("https://github.com/owner/repo/").as_deref(),
        Some("owner/repo")
    );
    assert_eq!(repo_name_from_remote("https://gitlab.com/a/b.git"), None);
    assert_eq!(repo_name_from_remote("git@github.com:owner"), None);
}

#[test]
fn repo_key_from_remote_parses_https_and_ssh() {
    assert_eq!(
        repo_key_from_remote("https://github.com/LightHeart-Ventures/aish.git").as_deref(),
        Some("LightHeart-Ventures--aish")
    );
    assert_eq!(
        repo_key_from_remote("git@github.com:owner/repo.git").as_deref(),
        Some("owner--repo")
    );
    assert_eq!(
        repo_key_from_remote("ssh://git@github.com/owner/repo.git").as_deref(),
        Some("owner--repo")
    );
    assert_eq!(repo_key_from_remote("https://gitlab.com/owner/repo.git"), None);
    assert_eq!(repo_key_from_remote("https://github.com/owner"), None);
}

#[test]
fn sanitize_and_fallback_keys_are_stable() {
    assert_eq!(sanitize_repo_key("owner/repo"), "owner--repo");
    assert_eq!(sanitize_repo_key("a b/c:d"), "a-b--c-d");
    let a = fallback_repo_key("/home/me/aish");
    let b = fallback_repo_key("/home/me/aish");
    assert_eq!(a, b);
    assert!(a.starts_with("aish-"));
    assert_ne!(a, fallback_repo_key("/tmp/aish"));
}

#[test]
fn fallback_keys_end_in_the_low_half_of_the_hash() {
    // The hash of "a" is 0xaf63dc4c8601ec8c.
    assert_eq!(fallback_repo_key("a"), "a-8601ec8c");
    // The hash of nothing is 0xcbf29ce484222325.
    assert_eq!(fallback_repo_key(""), "repo-84222325");
    assert!(fallback_repo_key("/").starts_with("repo-"));
}

#[test]
fn names_at_the_end_of_a_path() {
    assert_eq!(file_name("/home/me/aish").as_deref(), Some("aish"));
    assert_eq!(file_name("/home/me/aish/").as_deref(), Some("aish"));
    assert_eq!(file_name("a/.").as_deref(), Some("a"));
    assert_eq!(file_name("a/..").as_deref(), None);
    assert_eq!(file_name(".").as_deref(), None);
    assert_eq!(file_name("/").as_deref(), None);
    for p in ["/x/y", "x//", "./x", "..", "a/./b/.", "", "/..", "...", "/a/.../"] {
        assert_eq!(
            file_name(p),
            std::path::Path::new(p).file_name().map(|s| s.to_string_lossy().to_string()),
            "{p}"
        );
    }
}

#[test]
fn keys_of_keys_are_the_same() {
    for s in ["owner/repo", "a b/c:d", "Ünïcode/x.y_z-1"] {
        let k = sanitize_repo_key(s);
        assert!(k.chars().all(|c| c.is_ascii_alphanumeric() || "-_.".contains(c)), "{k}");
        assert_eq!(sanitize_repo_key(&k), k);
    }
}

#[test]
fn remotes_outrank_paths() {
    assert_eq!(repo_key("/x/aish", Some("git@github.com:o/r.git")), "o--r");
    assert_eq!(repo_key("a", Some("git@gitlab.com:o/r.git")), "a-8601ec8c");
    assert_eq!(repo_key("a", None), "a-8601ec8c");
    assert_eq!(repo_name(true, Some("git@github.com:o/r"), Some("/x")).as_deref(), Some("o/r"));
    assert_eq!(repo_name(true, None, Some("/x/top")).as_deref(), Some("top"));
    assert_eq!(repo_name(true, None, None), None);
    assert_eq!(repo_name(false, Some("git@github.com:o/r"), Some("/x")), None);
}

#[test]
fn a_detached_head_is_no_branch() {
    assert_eq!(current_branch(Some("main")).as_deref(), Some("main"));
    assert_eq!(current_branch(Some("HEAD")), None);
    assert_eq!(current_branch(Some("")), None);
    assert_eq!(current_branch(None), None);
    assert_eq!(probe_text(true, " main\n").as_deref(), Some("main"));
    assert_eq!(probe_text(false, " main\n"), None);
}
