# equip_lib

Parsing of SKILL.md files and of skill source specifications, verified with Verus.

- `src/text.rs`: the string operations the parsers rely on (`trim`, `lines`,
  `split_whitespace`, `splitn`, `trim_end_matches`, ...), specified over
  `Seq<char>` and implemented over `Vec<char>`.
- `src/skill.rs`: the `---`-fenced frontmatter of a SKILL.md (`name`,
  `description`, optional `version`, with quoted values and folded `>` /
  literal `|` blocks), includes files, and the order in which discovered
  skills are listed.
- `src/source.rs`: skill sources: GitHub shorthand `owner/repo[/subpath]`,
  GitHub web URLs and pasted command lines, git URLs and local paths.
- `app/lib.rs`: the file-system and environment side: reading files,
  scanning directories, resolving local paths.

Every function in `src/` carries a contract that states its result exactly;
the proof functions named `lemma_*` with a doc comment state properties of
the library as a whole.
