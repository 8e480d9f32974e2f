use equip_lib::skill::{
    extract_field, find_closing_fence,
    name_order, parse_frontmatter, parse_includes, SkillFrontmatter,
};

#[test]
fn parse_valid_frontmatter() {
    let content = "---\nname: my-skill\ndescription: A test skill\n---\n# Hello";
    let fm = parse_frontmatter(content).unwrap();
    assert_eq!(fm.name, "my-skill");
    assert_eq!(fm.description, "A test skill");
}

#[test]
fn parse_quoted_values() {
    let content = "---\nname: \"my-skill\"\ndescription: 'A test skill'\n---\n";
    let fm = parse_frontmatter(content).unwrap();
    assert_eq!(fm.name, "my-skill");
    assert_eq!(fm.description, "A test skill");
}

#[test]
fn missing_name() {
    let content = "---\ndescription: A test skill\n---\n";
    let err = parse_frontmatter(content).unwrap_err();
    assert!(err.contains("name"));
}

#[test]
fn missing_description() {
    let content = "---\nname: my-skill\n---\n";
    let err = parse_frontmatter(content).unwrap_err();
    assert!(err.contains("description"));
}

#[test]
fn no_frontmatter() {
    let content = "# Just a markdown file";
    let err = parse_frontmatter(content).unwrap_err();
    assert!(err.contains("frontmatter"));
}

#[test]
fn no_closing_dashes() {
    let content = "---\nname: test\ndescription: test\n";
    let err = parse_frontmatter(content).unwrap_err();
    assert!(err.contains("closing"));
}

#[test]
fn four_dashes_rejected() {
    let content = "----\nname: test\ndescription: test\n---\n";
    // Should require newline immediately after "---"
    let err = parse_frontmatter(content).unwrap_err();
    assert!(err.contains("newline"));
}

#[test]
fn parse_version_field() {
    let content = "---\nname: my-skill\ndescription: A test\nversion: 1.2.0\n---\n";
    let fm = parse_frontmatter(content).unwrap();
    assert_eq!(fm.version, Some("1.2.0".to_string()));
}

#[test]
fn parse_no_version_field() {
    let content = "---\nname: my-skill\ndescription: A test\n---\n";
    let fm = parse_frontmatter(content).unwrap();
    assert_eq!(fm.version, None);
}

#[test]
fn dashes_in_body_dont_close_frontmatter() {
    let content =
        "---\nname: my-skill\ndescription: A test skill\n---\n# Body\n\n--- separator ---\n";
    let fm = parse_frontmatter(content).unwrap();
    assert_eq!(fm.name, "my-skill");
    assert_eq!(fm.description, "A test skill");
}

#[test]
fn parse_folded_description() {
    let content = "---\nname: available\ndescription: >\n  Find and check project name\n  availability across registries.\nuser-invocable: true\n---\n";
    let fm = parse_frontmatter(content).unwrap();
    assert_eq!(
        fm.description,
        "Find and check project name availability across registries."
    );
}

#[test]
fn parse_literal_description() {
    let content = "---\nname: my-skill\ndescription: |\n  Line one.\n  Line two.\n---\n";
    let fm = parse_frontmatter(content).unwrap();
    assert_eq!(fm.description, "Line one.\nLine two.");
}

// ---------------------------------------------------------------------------

#[test]
fn error_messages_are_exact() {
    assert_eq!(
        parse_frontmatter("# x").unwrap_err(),
        "SKILL.md must start with YAML frontmatter (---)"
    );
    assert_eq!(
        parse_frontmatter("---x").unwrap_err(),
        "SKILL.md frontmatter: expected newline after opening ---"
    );
    assert_eq!(
        parse_frontmatter("---\nname: a\n").unwrap_err(),
        "SKILL.md frontmatter missing closing ---"
    );
    assert_eq!(
        parse_frontmatter("---\ndescription: d\n---").unwrap_err(),
        "SKILL.md missing required 'name' field in frontmatter"
    );
    assert_eq!(
        parse_frontmatter("---\nname: n\n---").unwrap_err(),
        "SKILL.md missing required 'description' field in frontmatter"
    );
}

#[test]
fn surrounding_whitespace_is_trimmed() {
    let fm = parse_frontmatter("  \n\t---\nname:  spaced  \ndescription : d\n  ---  \n\n").unwrap();
    assert_eq!(fm.name, "spaced");
    assert_eq!(fm.description, "d");
}

#[test]
fn crlf_line_endings() {
    let fm = parse_frontmatter("---\r\nname: a\r\ndescription: b\r\n---\r\nbody").unwrap();
    assert_eq!(fm.name, "a");
    assert_eq!(fm.description, "b");
}

#[test]
fn key_must_be_whole_word() {
    let err = parse_frontmatter("---\nnames: a\ndescription: b\n---").unwrap_err();
    assert!(err.contains("'name'"));
}

#[test]
fn empty_value_falls_through_to_later_line() {
    let fm = parse_frontmatter("---\nname:\nname: later\ndescription: \"\"\ndescription: d\n---").unwrap();
    assert_eq!(fm.name, "later");
    assert_eq!(fm.description, "d");
}

#[test]
fn empty_block_gives_no_value() {
    let err = parse_frontmatter("---\nname: a\ndescription: >\n---\ndescription: b").unwrap_err();
    assert!(err.contains("description"));
}

#[test]
fn lone_quote_is_kept() {
    let fm = parse_frontmatter("---\nname: \"\ndescription: 'x\"\n---").unwrap();
    assert_eq!(fm.name, "\"");
    assert_eq!(fm.description, "'x\"");
}

#[test]
fn block_uses_tabs_and_stops_at_unindented_line() {
    let fm = parse_frontmatter("---\ndescription: |\n\tone\n two\nname: n\n three\n---").unwrap();
    assert_eq!(fm.description, "one\ntwo");
    assert_eq!(fm.name, "n");
}

#[test]
fn crlf_lines_before_a_multibyte_char() {
    let err = parse_frontmatter("---\n\r\n\r\n\u{e9}\n---").unwrap_err();
    assert!(err.contains("name"));
    let err = parse_frontmatter("---\r\na\r\nb\r\n\u{e9}\r\n---\r\n").unwrap_err();
    assert!(err.contains("name"));
}

#[test]
fn crlf_frontmatter_keeps_its_last_line() {
    let fm = parse_frontmatter(
        "---\r\nname: a\r\ndescription: b\r\nversion: 1.2.0\r\n---\r\nbody",
    )
    .unwrap();
    assert_eq!(fm.name, "a");
    assert_eq!(fm.description, "b");
    assert_eq!(fm.version, Some("1.2.0".to_string()));
}

#[test]
fn closing_fence_offset_counts_crlf() {
    assert_eq!(find_closing_fence("a: 1\r\nb: 2\r\n---\r\n"), Some(12));
    assert_eq!(find_closing_fence("x\n \u{e9}\n  --- \ny"), Some(6));
    assert_eq!(find_closing_fence("---"), Some(0));
    assert_eq!(find_closing_fence("a\n----\n"), None);
}

#[test]
fn extract_field_takes_first_non_empty_value() {
    assert_eq!(
        extract_field("name:\nname: ''\nname: a\nname: b", "name"),
        Some("a".to_string())
    );
    assert_eq!(extract_field("d: >\n  x\n  y\n", "d"), Some("x y".to_string()));
    assert_eq!(extract_field("d: |\n", "d"), None);
}

#[test]
fn includes_skip_comments_and_blank_lines() {
    let got = parse_includes("# sources\n  a/b  \n\n   # indented comment\nc/d\r\n\t\n");
    assert_eq!(got, vec!["a/b".to_string(), "c/d".to_string()]);
    assert!(parse_includes("").is_empty());
}

#[test]
fn name_order_is_stable_by_name() {
    let mk = |n: &str, d: &str| SkillFrontmatter {
        name: n.to_string(),
        description: d.to_string(),
        version: None,
    };
    let skills = vec![mk("b", "1"), mk("a", "2"), mk("b", "3"), mk("ab", "4"), mk("a", "5"), mk("B", "6")];
    assert_eq!(name_order(&skills), vec![5, 1, 4, 3, 0, 2]);
    assert!(name_order(&Vec::new()).is_empty());
}
