use equip_lib::source::{normalize_input, strip_trailing_files, SkillSource, SourceTarget};

#[test]
fn parse_github_shorthand() {
    let source = SkillSource::resolve_target("anthropics/skills").unwrap();
    match source {
        SourceTarget::GitHub {
            owner,
            repo,
            subpath,
        } => {
            assert_eq!(owner, "anthropics");
            assert_eq!(repo, "skills");
            assert!(subpath.is_none());
        }
        _ => panic!("Expected GitHub source"),
    }
}

#[test]
fn parse_github_with_subpath() {
    let source = SkillSource::resolve_target("anthropics/skills/pdf").unwrap();
    match source {
        SourceTarget::GitHub {
            owner,
            repo,
            subpath,
        } => {
            assert_eq!(owner, "anthropics");
            assert_eq!(repo, "skills");
            assert_eq!(subpath.as_deref(), Some("pdf"));
        }
        _ => panic!("Expected GitHub source"),
    }
}

#[test]
fn parse_github_https_url() {
    // GitHub HTTPS URLs are normalized to GitHub shorthand
    let source = SkillSource::resolve_target("https://github.com/foo/bar.git").unwrap();
    match source {
        SourceTarget::GitHub { owner, repo, .. } => {
            assert_eq!(owner, "foo");
            assert_eq!(repo, "bar");
        }
        _ => panic!("Expected GitHub source, got {:?}", source),
    }
}

#[test]
fn parse_git_url_ssh() {
    let source = SkillSource::resolve_target("git@github.com:foo/bar.git").unwrap();
    match source {
        SourceTarget::GitUrl { url } => {
            assert_eq!(url, "git@github.com:foo/bar.git");
        }
        _ => panic!("Expected GitUrl source"),
    }
}

#[test]
fn repo_url_github() {
    let source = SkillSource::GitHub {
        owner: "anthropics".to_string(),
        repo: "skills".to_string(),
        subpath: None,
    };
    assert_eq!(
        source.repo_url(),
        Some("https://github.com/anthropics/skills".to_string())
    );
}

// --- normalize_input tests ---

#[test]
fn normalize_github_blob_url() {
    assert_eq!(
        normalize_input("https://github.com/michaelneale/megamind/blob/main/SKILL.md"),
        "michaelneale/megamind"
    );
}

#[test]
fn normalize_github_tree_url_with_subpath() {
    assert_eq!(
        normalize_input("https://github.com/anthropics/skills/tree/main/skills/frontend-design"),
        "anthropics/skills/skills/frontend-design"
    );
}

#[test]
fn normalize_github_plain_url() {
    assert_eq!(normalize_input("https://github.com/owner/repo"), "owner/repo");
}

#[test]
fn normalize_github_url_with_dot_git() {
    assert_eq!(normalize_input("https://github.com/owner/repo.git"), "owner/repo");
}

#[test]
fn normalize_github_url_trailing_slash() {
    assert_eq!(normalize_input("https://github.com/owner/repo/"), "owner/repo");
}

#[test]
fn normalize_pasted_npx_command() {
    assert_eq!(
        normalize_input(
            "npx skills add https://github.com/vercel-labs/agent-skills --skill web-design"
        ),
        "vercel-labs/agent-skills"
    );
}

#[test]
fn normalize_pasted_equip_command() {
    assert_eq!(normalize_input("equip install owner/repo"), "owner/repo");
}

#[test]
fn normalize_shorthand_passthrough() {
    assert_eq!(normalize_input("owner/repo"), "owner/repo");
    assert_eq!(normalize_input("owner/repo/subpath"), "owner/repo/subpath");
}

#[test]
fn normalize_github_blob_url_resolves_to_github_source() {
    let source =
        SkillSource::resolve_target("https://github.com/michaelneale/megamind/blob/main/SKILL.md")
            .unwrap();
    match source {
        SourceTarget::GitHub { owner, repo, .. } => {
            assert_eq!(owner, "michaelneale");
            assert_eq!(repo, "megamind");
        }
        _ => panic!("Expected GitHub source, got {:?}", source),
    }
}

#[test]
fn normalize_github_tree_url_resolves_with_subpath() {
    let source = SkillSource::resolve_target(
        "https://github.com/anthropics/skills/tree/main/skills/frontend-design",
    )
    .unwrap();
    match source {
        SourceTarget::GitHub {
            owner,
            repo,
            subpath,
        } => {
            assert_eq!(owner, "anthropics");
            assert_eq!(repo, "skills");
            assert_eq!(subpath.as_deref(), Some("skills/frontend-design"));
        }
        _ => panic!("Expected GitHub source, got {:?}", source),
    }
}

// ---------------------------------------------------------------------------

#[test]
fn git_clone_url_forms() {
    let gh = SkillSource::GitHub {
        owner: "o".to_string(),
        repo: "r".to_string(),
        subpath: Some("s".to_string()),
    };
    assert_eq!(gh.git_clone_url(), Some("https://github.com/o/r.git".to_string()));
    assert_eq!(gh.subpath(), Some("s"));
    let git = SkillSource::GitUrl {
        url: "git://host/x.git".to_string(),
    };
    assert_eq!(git.repo_url(), Some("git://host/x.git".to_string()));
    assert_eq!(git.git_clone_url(), Some("git://host/x.git".to_string()));
    assert_eq!(git.subpath(), None);
    let local = SkillSource::Local {
        path: std::path::PathBuf::from("/tmp"),
    };
    assert_eq!(local.repo_url(), None);
    assert_eq!(local.git_clone_url(), None);
    assert_eq!(local.subpath(), None);
}

#[test]
fn local_targets() {
    match SkillSource::resolve_target("./my-skill").unwrap() {
        SourceTarget::LocalPath { path } => assert_eq!(path, "./my-skill"),
        other => panic!("Expected local path, got {:?}", other),
    }
    match SkillSource::resolve_target("  ~/skills/x ").unwrap() {
        SourceTarget::HomeRelative { rest } => assert_eq!(rest, "skills/x"),
        other => panic!("Expected home path, got {:?}", other),
    }
    match SkillSource::resolve_target("~\\win").unwrap() {
        SourceTarget::HomeRelative { rest } => assert_eq!(rest, "win"),
        other => panic!("Expected home path, got {:?}", other),
    }
    match SkillSource::resolve_target("C:\\skills").unwrap() {
        SourceTarget::LocalPath { path } => assert_eq!(path, "C:\\skills"),
        other => panic!("Expected local path, got {:?}", other),
    }
    match SkillSource::resolve_target(".").unwrap() {
        SourceTarget::LocalPath { path } => assert_eq!(path, "."),
        other => panic!("Expected local path, got {:?}", other),
    }
}

#[test]
fn resolve_errors() {
    assert_eq!(
        SkillSource::resolve_target("justaname").unwrap_err(),
        "Invalid source 'justaname'. Expected: owner/repo, a git URL, or a local path."
    );
    assert_eq!(
        SkillSource::resolve_target("https://github.com/a/.git").unwrap_err(),
        "Invalid source 'a/': owner and repo must not be empty."
    );
    match SkillSource::resolve_target("owner/repo/").unwrap() {
        SourceTarget::GitHub { subpath, .. } => assert!(subpath.is_none()),
        other => panic!("Expected GitHub source, got {:?}", other),
    }
    match SkillSource::resolve_target("owner/repo/a/b").unwrap() {
        SourceTarget::GitHub { subpath, .. } => assert_eq!(subpath.as_deref(), Some("a/b")),
        other => panic!("Expected GitHub source, got {:?}", other),
    }
}

#[test]
fn normalize_more_urls() {
    assert_eq!(normalize_input("http://github.com/o/r.git.git/"), "o/r");
    assert_eq!(normalize_input("https://github.com/o/r/blob/main"), "o/r");
    assert_eq!(normalize_input("https://github.com/o/r/raw/main/README.md"), "o/r");
    assert_eq!(normalize_input("https://github.com/o/r/commit/abc/dir/"), "o/r/dir");
    assert_eq!(normalize_input("https://github.com/o/r/issues"), "o/r/issues");
    assert_eq!(normalize_input("https://github.com/o/r/docs/guide.md"), "o/r/docs");
    assert_eq!(normalize_input("https://github.com/o/r/x.md"), "o/r");
    assert_eq!(normalize_input("  plain  "), "plain");
    assert_eq!(normalize_input("run -x ./a /abs git://h/x o/r"), "o/r");
    assert_eq!(normalize_input("run git/b o/r"), "git/b");
}

#[test]
fn normalize_github_words_that_are_not_urls() {
    assert_eq!(normalize_input("github.com/owner/repo"), "github.com/owner/repo");
    assert_eq!(normalize_input("https://github.com/owner"), "https://github.com/owner");
    assert_eq!(normalize_input("see https://github.com/x"), "https://github.com/x");
    assert_eq!(normalize_input("see https://github.com/x/y now"), "x/y");
    assert_eq!(
        normalize_input("git://github.com/foo/bar.git"),
        "git://github.com/foo/bar.git"
    );
}

#[test]
fn git_protocol_url_resolves_to_git_url() {
    match SkillSource::resolve_target("git://github.com/foo/bar.git").unwrap() {
        SourceTarget::GitUrl { url } => assert_eq!(url, "git://github.com/foo/bar.git"),
        other => panic!("Expected GitUrl source, got {:?}", other),
    }
}

#[test]
fn shorthand_words_may_start_with_git_or_http() {
    assert_eq!(
        normalize_input("equip install gitbutlerapp/gitbutler"),
        "gitbutlerapp/gitbutler"
    );
    assert_eq!(normalize_input("add httpie/cli"), "httpie/cli");
    assert_eq!(normalize_input("clone git@host:a/b.git"), "clone git@host:a/b.git");
    assert_eq!(normalize_input("get http://host/a/b"), "get http://host/a/b");
}

#[test]
fn drive_letter_needs_an_ascii_first_byte() {
    match SkillSource::resolve_target("\u{e9}:/x").unwrap() {
        SourceTarget::GitHub { owner, repo, .. } => {
            assert_eq!(owner, "\u{e9}:");
            assert_eq!(repo, "x");
        }
        other => panic!("Expected GitHub source, got {:?}", other),
    }
}

#[test]
fn strip_trailing_files_cases() {
    use_strip(&["a/b/c.md", "a/b"]);
    use_strip(&["a/b/", "a/b"]);
    use_strip(&["file.md", ""]);
    use_strip(&["dir", "dir"]);
}

fn use_strip(case: &[&str]) {
    let v: Vec<char> = case[0].chars().collect();
    let r: String = strip_trailing_files(&v).iter().collect();
    assert_eq!(r, case[1]);
}
