//! Skill sources: GitHub shorthand (`owner/repo[/subpath]`), GitHub web URLs,
//! git URLs and local paths, with the clean-up of pasted input.
use vstd::prelude::*;
use crate::text::{
    char_pos, chars_of, concat, contains_exec, contains_seq, ends_with, ends_with_exec, find_char,
    first_match, has_char, is_ws, last_pos, lemma_char_pos, lemma_first_match_elem,
    lemma_first_match_concat, lemma_last_pos, lemma_last_pos_bound, lemma_splitn_cons,
    lemma_words_concat, lemma_splitn_pieces, lemma_splitn_single,
    lemma_trim_end_matches_prefix, lemma_trim_ends, lemma_trim_no_ws, lemma_words_elements, lemma_words_single, no_ws, occurs_at, rfind_char,
    seq_eq, slice_chars, splitn, splitn_of, starts_with, starts_with_exec, string_of, trim,
    trim_end_matches, trim_end_matches_exec, trim_of, views, words, words_of,
};
use crate::skill::opt_view;

verus! {

#[verifier::external_type_specification]
#[verifier::external_body]
pub struct ExPathBuf(std::path::PathBuf);

/// Where a skill comes from.
#[derive(Debug)]
pub enum SkillSource {
    GitHub { owner: String, repo: String, subpath: Option<String> },
    GitUrl { url: String },
    Local { path: std::path::PathBuf },
}

// ---------------------------------------------------------------------------
// Normalizing pasted input
// ---------------------------------------------------------------------------

pub open spec fn gh_https() -> Seq<char> {
    "https://github.com/"@
}

pub open spec fn gh_http() -> Seq<char> {
    "http://github.com/"@
}

pub open spec fn gh_host() -> Seq<char> {
    "github.com/"@
}

pub open spec fn dot_git() -> Seq<char> {
    ".git"@
}

pub open spec fn slash() -> Seq<char> {
    seq!['/']
}

/// The path of a `https://github.com/` or `http://github.com/` URL.
pub open spec fn url_path(s: Seq<char>) -> Option<Seq<char>> {
    if starts_with(s, gh_https()) {
        Some(s.subrange(gh_https().len() as int, s.len() as int))
    } else if starts_with(s, gh_http()) {
        Some(s.subrange(gh_http().len() as int, s.len() as int))
    } else {
        None
    }
}

/// `base/sub`, or `base` alone where `sub` is empty.
pub open spec fn with_subpath(base: Seq<char>, sub: Seq<char>) -> Seq<char> {
    if sub.len() == 0 {
        base
    } else {
        base + slash() + sub
    }
}

/// A GitHub URL path segment that a branch and a file path follow.
pub open spec fn is_ref_segment(seg: Seq<char>) -> bool {
    seg == "blob"@ || seg == "tree"@ || seg == "raw"@ || seg == "commit"@
}

/// `path` without trailing slashes and without a last component that names a
/// file (holds a `.`); a lone file name gives the empty path.
pub open spec fn spec_strip_trailing_files(path: Seq<char>) -> Seq<char> {
    let p = trim_end_matches(path, slash());
    match last_pos(p, '/') {
        Some(k) => if p.subrange(k + 1, p.len() as int).contains('.') {
            p.subrange(0, k)
        } else {
            p
        },
        None => if p.contains('.') {
            seq![]
        } else {
            p
        },
    }
}

/// For a GitHub web URL with at least an owner and a repository, the
/// `owner/repo[/subpath]` it points at: a `.git` suffix of the repository is
/// dropped; after `blob`, `tree`, `raw` or `commit` the branch is dropped;
/// any other path is kept as the subpath; file names are dropped.
pub open spec fn github_url_target(s: Seq<char>) -> Option<Seq<char>> {
    match url_path(s) {
        None => None,
        Some(path) => {
            let parts = splitn(trim_end_matches(path, slash()), 4, '/');
            if parts.len() < 2 {
                None
            } else {
                let base = parts[0] + slash() + trim_end_matches(parts[1], dot_git());
                if parts.len() == 2 {
                    Some(base)
                } else if is_ref_segment(parts[2]) {
                    if parts.len() == 4 && char_pos(parts[3], '/') < parts[3].len() {
                        let after_branch = parts[3].subrange(
                            char_pos(parts[3], '/') + 1int,
                            parts[3].len() as int,
                        );
                        Some(with_subpath(base, spec_strip_trailing_files(after_branch)))
                    } else {
                        Some(base)
                    }
                } else {
                    let joined = if parts.len() == 4 {
                        parts[2] + slash() + parts[3]
                    } else {
                        parts[2]
                    };
                    Some(with_subpath(base, spec_strip_trailing_files(joined)))
                }
            }
        },
    }
}

pub open spec fn mentions_github(w: Seq<char>) -> bool {
    contains_seq(w, gh_host())
}

/// A word that looks like `owner/repo`: it holds a `/`, has no protocol
/// prefix (`http://`, `https://`, `git@`, `git://`), and starts with none of
/// `-`, `/`, `.`.
pub open spec fn is_shorthand_word(w: Seq<char>) -> bool {
    &&& w.contains('/')
    &&& !starts_with(w, seq!['-'])
    &&& !starts_with(w, "http://"@)
    &&& !starts_with(w, "https://"@)
    &&& !starts_with(w, "git@"@)
    &&& !starts_with(w, "git://"@)
    &&& !starts_with(w, seq!['/'])
    &&& !starts_with(w, seq!['.'])
}

pub open spec fn github_word() -> spec_fn(Seq<char>) -> bool {
    |w: Seq<char>| mentions_github(w)
}

pub open spec fn shorthand_word() -> spec_fn(Seq<char>) -> bool {
    |w: Seq<char>| is_shorthand_word(w)
}

/// The first word of the trimmed input that mentions `github.com/`.
pub open spec fn pasted_github_word(s: Seq<char>) -> Option<Seq<char>> {
    if mentions_github(s) {
        first_match(words(s), github_word())
    } else {
        None
    }
}

/// What normalizing a single word that mentions `github.com/` gives: its
/// GitHub URL target, or else the word itself (the remaining rules keep a
/// lone word as it is).
pub open spec fn normalize_github_word(w: Seq<char>) -> Seq<char> {
    match github_url_target(w) {
        Some(r) => r,
        None => w,
    }
}

/// What `normalize_input` returns: the target of a GitHub URL; else the
/// first word that mentions `github.com/`, normalized on its own; else the
/// first word that looks like `owner/repo`; else the trimmed input.
pub open spec fn spec_normalize(src: Seq<char>) -> Seq<char> {
    let s = trim(src);
    match github_url_target(s) {
        Some(r) => r,
        None => match pasted_github_word(s) {
            Some(w) => normalize_github_word(w),
            None => match first_match(words(s), shorthand_word()) {
                Some(w) => w,
                None => s,
            },
        },
    }
}

/// `path` without trailing slashes and a final file name (see
/// `spec_strip_trailing_files`).
pub fn strip_trailing_files(path: &Vec<char>) -> (r: Vec<char>)
    ensures
        r@ == spec_strip_trailing_files(path@),
{
    let sl = ['/'];
    assert(sl@ =~= slash());
    let p = trim_end_matches_exec(path, &sl);
    match rfind_char(&p, '/') {
        Some(k) => {
            let file = slice_chars(&p, k + 1, p.len());
            if has_char(&file, '.') {
                slice_chars(&p, 0, k)
            } else {
                p
            }
        },
        None => {
            if has_char(&p, '.') {
                Vec::new()
            } else {
                p
            }
        },
    }
}

fn with_subpath_exec(base: Vec<char>, sub: &Vec<char>) -> (r: Vec<char>)
    ensures
        r@ == with_subpath(base@, sub@),
{
    if sub.len() == 0 {
        base
    } else {
        let mut b = base;
        b.push('/');
        concat(&b, sub)
    }
}

fn is_ref_segment_exec(seg: &Vec<char>) -> (b: bool)
    ensures
        b == is_ref_segment(seg@),
{
    let blob = chars_of("blob");
    let tree = chars_of("tree");
    let raw = chars_of("raw");
    let commit = chars_of("commit");
    seq_eq(seg, blob.as_slice()) || seq_eq(seg, tree.as_slice()) || seq_eq(seg, raw.as_slice())
        || seq_eq(seg, commit.as_slice())
}

fn github_url_target_exec(s: &Vec<char>) -> (r: Option<Vec<char>>)
    ensures
        match r {
            Some(t) => github_url_target(s@) == Some(t@),
            None => github_url_target(s@) is None,
        },
{
    let https = chars_of("https://github.com/");
    let http = chars_of("http://github.com/");
    let path = if starts_with_exec(s, https.as_slice()) {
        slice_chars(s, https.len(), s.len())
    } else if starts_with_exec(s, http.as_slice()) {
        slice_chars(s, http.len(), s.len())
    } else {
        return None;
    };
    let sl = ['/'];
    assert(sl@ =~= slash());
    let p = trim_end_matches_exec(&path, &sl);
    let parts = splitn_of(&p, 4, '/');
    let ghost ps = views(parts@);
    assert(ps.len() == parts.len());
    if parts.len() < 2 {
        return None;
    }
    assert(parts@[0]@ == ps[0] && parts@[1]@ == ps[1]);
    let git = chars_of(".git");
    proof {
        reveal_strlit(".git");
    }
    let repo = trim_end_matches_exec(&parts[1], git.as_slice());
    let mut owner_slash = parts[0].clone();
    owner_slash.push('/');
    let base = concat(&owner_slash, &repo);
    assert(base@ =~= ps[0] + slash() + trim_end_matches(ps[1], dot_git()));
    if parts.len() == 2 {
        return Some(base);
    }
    assert(parts@[2]@ == ps[2]);
    if is_ref_segment_exec(&parts[2]) {
        if parts.len() == 4 {
            assert(parts@[3]@ == ps[3]);
            let rest = &parts[3];
            let k = find_char(rest, '/');
            if k < rest.len() {
                let after_branch = slice_chars(rest, k + 1, rest.len());
                let sub = strip_trailing_files(&after_branch);
                return Some(with_subpath_exec(base, &sub));
            }
        }
        return Some(base);
    }
    let joined = if parts.len() == 4 {
        assert(parts@[3]@ == ps[3]);
        let mut j = parts[2].clone();
        j.push('/');
        let r = concat(&j, &parts[3]);
        assert(r@ =~= ps[2] + slash() + ps[3]);
        r
    } else {
        parts[2].clone()
    };
    let sub = strip_trailing_files(&joined);
    Some(with_subpath_exec(base, &sub))
}

proof fn lemma_first_match_step(xs: Seq<Seq<char>>, p: spec_fn(Seq<char>) -> bool, i: int)
    requires
        0 <= i < xs.len(),
        !p(xs[i]),
    ensures
        first_match(xs.subrange(i, xs.len() as int), p) == first_match(
            xs.subrange(i + 1, xs.len() as int),
            p,
        ),
{
    assert(xs.subrange(i, xs.len() as int).drop_first() =~= xs.subrange(i + 1, xs.len() as int));
}

fn is_shorthand_word_exec(w: &Vec<char>) -> (b: bool)
    ensures
        b == is_shorthand_word(w@),
{
    let dash = ['-'];
    let sl = ['/'];
    let dot = ['.'];
    assert(dash@ =~= seq!['-']);
    assert(sl@ =~= seq!['/']);
    assert(dot@ =~= seq!['.']);
    let http = chars_of("http://");
    let https = chars_of("https://");
    let git_at = chars_of("git@");
    let git_proto = chars_of("git://");
    has_char(w, '/') && !starts_with_exec(w, &dash) && !starts_with_exec(w, http.as_slice())
        && !starts_with_exec(w, https.as_slice()) && !starts_with_exec(w, git_at.as_slice())
        && !starts_with_exec(w, git_proto.as_slice()) && !starts_with_exec(w, &sl)
        && !starts_with_exec(w, &dot)
}

/// Normalizes messy input into something `SkillSource` can parse: GitHub web
/// URLs become `owner/repo[/subpath]`, and from a pasted command line the
/// GitHub URL or the `owner/repo` word is picked out.
pub fn normalize_input(source: &str) -> (r: String)
    ensures
        r@ == spec_normalize(source@),
{
    let all = chars_of(source);
    let s = trim_of(&all);
    if let Some(t) = github_url_target_exec(&s) {
        return string_of(&t);
    }
    let host = chars_of("github.com/");
    if contains_exec(&s, host.as_slice()) {
        let ws = words_of(&s);
        let ghost wv = views(ws@);
        let mut i: usize = 0;
        assert(wv.subrange(0, wv.len() as int) =~= wv);
        while i < ws.len()
            invariant
                i <= ws.len(),
                wv == views(ws@),
                wv == words(s@),
                host@ == gh_host(),
                s@ == trim(source@),
                github_url_target(s@) is None,
                mentions_github(s@),
                first_match(wv, github_word()) == first_match(
                    wv.subrange(i as int, wv.len() as int),
                    github_word(),
                ),
            decreases ws.len() - i,
        {
            assert(ws@[i as int]@ == wv[i as int]);
            if contains_exec(&ws[i], host.as_slice()) {
                assert(wv.subrange(i as int, wv.len() as int)[0] == wv[i as int]);
                assert(pasted_github_word(s@) == Some(wv[i as int]));
                return match github_url_target_exec(&ws[i]) {
                    Some(t) => string_of(&t),
                    None => string_of(&ws[i]),
                };
            }
            proof {
                lemma_first_match_step(wv, github_word(), i as int);
            }
            i = i + 1;
        }
        assert(wv.subrange(i as int, wv.len() as int) =~= Seq::<Seq<char>>::empty());
    }
    assert(pasted_github_word(s@) is None);
    let ws = words_of(&s);
    let ghost wv = views(ws@);
    let mut i: usize = 0;
    assert(wv.subrange(0, wv.len() as int) =~= wv);
    while i < ws.len()
        invariant
            i <= ws.len(),
            wv == views(ws@),
            wv == words(s@),
            s@ == trim(source@),
            github_url_target(s@) is None,
            pasted_github_word(s@) is None,
            first_match(wv, shorthand_word()) == first_match(
                wv.subrange(i as int, wv.len() as int),
                shorthand_word(),
            ),
        decreases ws.len() - i,
    {
        assert(ws@[i as int]@ == wv[i as int]);
        if is_shorthand_word_exec(&ws[i]) {
            assert(wv.subrange(i as int, wv.len() as int)[0] == wv[i as int]);
            return string_of(&ws[i]);
        }
        proof {
            lemma_first_match_step(wv, shorthand_word(), i as int);
        }
        i = i + 1;
    }
    assert(wv.subrange(i as int, wv.len() as int) =~= Seq::<Seq<char>>::empty());
    string_of(&s)
}

// ---------------------------------------------------------------------------
// Classifying a source
// ---------------------------------------------------------------------------

/// Where a parsed source points, before the file system or the environment is
/// consulted: a local path is still to be made absolute (`LocalPath`) or to
/// be put under the home directory (`HomeRelative`).
#[derive(Debug)]
pub enum SourceTarget {
    GitHub { owner: String, repo: String, subpath: Option<String> },
    GitUrl { url: String },
    HomeRelative { rest: String },
    LocalPath { path: String },
}

/// A `SourceTarget` as text.
pub enum TargetView {
    GitHub { owner: Seq<char>, repo: Seq<char>, subpath: Option<Seq<char>> },
    GitUrl { url: Seq<char> },
    HomeRelative { rest: Seq<char> },
    LocalPath { path: Seq<char> },
}

impl View for SourceTarget {
    type V = TargetView;

    open spec fn view(&self) -> TargetView {
        match self {
            SourceTarget::GitHub { owner, repo, subpath } => TargetView::GitHub {
                owner: owner@,
                repo: repo@,
                subpath: opt_view(*subpath),
            },
            SourceTarget::GitUrl { url } => TargetView::GitUrl { url: url@ },
            SourceTarget::HomeRelative { rest } => TargetView::HomeRelative { rest: rest@ },
            SourceTarget::LocalPath { path } => TargetView::LocalPath { path: path@ },
        }
    }
}

/// A local path: it starts with `/`, `./`, `../` or `~`, is `.`, or starts
/// with a drive letter (`C:\` or `C:/`: its second and third bytes are `:`
/// and a slash, so the first character is ASCII).
pub open spec fn is_local_path(s: Seq<char>) -> bool {
    ||| starts_with(s, seq!['/'])
    ||| starts_with(s, seq!['.', '/'])
    ||| starts_with(s, seq!['.', '.', '/'])
    ||| starts_with(s, seq!['~'])
    ||| s == seq!['.']
    ||| (s.len() >= 3 && (s[0] as u32) < 0x80 && s[1] == ':' && (s[2] == '\\' || s[2] == '/'))
}

/// The part of a `~` path below the home directory: what follows the `~`,
/// without one leading `/` or `\`.
pub open spec fn home_rest(s: Seq<char>) -> Seq<char> {
    let r = s.drop_first();
    if r.len() > 0 && (r[0] == '/' || r[0] == '\\') {
        r.drop_first()
    } else {
        r
    }
}

pub open spec fn is_git_url(s: Seq<char>) -> bool {
    starts_with(s, "git@"@) || starts_with(s, "git://"@) || ends_with(s, ".git"@)
}

pub open spec fn msg_empty_part(s: Seq<char>) -> Seq<char> {
    "Invalid source '"@ + s + "': owner and repo must not be empty."@
}

pub open spec fn msg_unrecognized(s: Seq<char>) -> Seq<char> {
    "Invalid source '"@ + s + "'. Expected: owner/repo, a git URL, or a local path."@
}

/// What `resolve_target` gives for the normalized source `s`.
pub open spec fn target_of(s: Seq<char>) -> Result<TargetView, Seq<char>> {
    if is_local_path(s) {
        if s[0] == '~' {
            Ok(TargetView::HomeRelative { rest: home_rest(s) })
        } else {
            Ok(TargetView::LocalPath { path: s })
        }
    } else if is_git_url(s) {
        Ok(TargetView::GitUrl { url: s })
    } else {
        let parts = splitn(s, 3, '/');
        if parts.len() == 2 || parts.len() == 3 {
            if parts[0].len() == 0 || parts[1].len() == 0 {
                Err(msg_empty_part(s))
            } else {
                Ok(
                    TargetView::GitHub {
                        owner: parts[0],
                        repo: parts[1],
                        subpath: if parts.len() == 3 && parts[2].len() > 0 {
                            Some(parts[2])
                        } else {
                            None
                        },
                    },
                )
            }
        } else {
            Err(msg_unrecognized(s))
        }
    }
}

pub open spec fn target_result_view(r: Result<SourceTarget, String>) -> Result<TargetView, Seq<char>> {
    match r {
        Ok(t) => Ok(t@),
        Err(e) => Err(e@),
    }
}

fn is_local_path_exec(s: &Vec<char>) -> (b: bool)
    ensures
        b == is_local_path(s@),
{
    let sl = ['/'];
    let dot_sl = ['.', '/'];
    let dot_dot_sl = ['.', '.', '/'];
    let tilde = ['~'];
    let dot = ['.'];
    assert(sl@ =~= seq!['/']);
    assert(dot_sl@ =~= seq!['.', '/']);
    assert(dot_dot_sl@ =~= seq!['.', '.', '/']);
    assert(tilde@ =~= seq!['~']);
    assert(dot@ =~= seq!['.']);
    starts_with_exec(s, &sl) || starts_with_exec(s, &dot_sl) || starts_with_exec(s, &dot_dot_sl)
        || starts_with_exec(s, &tilde) || seq_eq(s, &dot) || (s.len() >= 3 && (s[0] as u32) < 0x80 && s[1] == ':' && (s[2]
        == '\\' || s[2] == '/'))
}

fn message(head: &str, s: &String, tail: &str) -> (r: String)
    ensures
        r@ == head@ + s@ + tail@,
{
    let mut m = String::from_str(head);
    m.append(s.as_str());
    m.append(tail);
    m
}

impl SkillSource {
    /// Classifies `source` after normalizing it: a local path (to be made
    /// absolute, or put under the home directory), a git URL, or GitHub
    /// shorthand `owner/repo[/subpath]` with a non-empty owner and repository.
    pub fn resolve_target(source: &str) -> (r: Result<SourceTarget, String>)
        ensures
            target_result_view(r) == target_of(spec_normalize(source@)),
    {
        let norm = normalize_input(source);
        let s = chars_of(norm.as_str());
        if is_local_path_exec(&s) {
            if s[0] == '~' {
                let r = slice_chars(&s, 1, s.len());
                assert(r@ =~= s@.drop_first());
                let rest = if r.len() > 0 && (r[0] == '/' || r[0] == '\\') {
                    assert(r@.drop_first() =~= r@.subrange(1, r.len() as int));
                    slice_chars(&r, 1, r.len())
                } else {
                    r
                };
                return Ok(SourceTarget::HomeRelative { rest: string_of(&rest) });
            }
            return Ok(SourceTarget::LocalPath { path: norm });
        }
        let git_at = chars_of("git@");
        let git_proto = chars_of("git://");
        let git_suffix = chars_of(".git");
        if starts_with_exec(&s, git_at.as_slice()) || starts_with_exec(&s, git_proto.as_slice())
            || ends_with_exec(&s, git_suffix.as_slice()) {
            return Ok(SourceTarget::GitUrl { url: norm });
        }
        let parts = splitn_of(&s, 3, '/');
        let ghost ps = views(parts@);
        assert(ps.len() == parts.len());
        if parts.len() == 2 || parts.len() == 3 {
            assert(parts@[0]@ == ps[0] && parts@[1]@ == ps[1]);
            if parts[0].len() == 0 || parts[1].len() == 0 {
                return Err(message("Invalid source '", &norm, "': owner and repo must not be empty."));
            }
            let subpath = if parts.len() == 3 {
                assert(parts@[2]@ == ps[2]);
                if parts[2].len() == 0 {
                    None
                } else {
                    Some(string_of(&parts[2]))
                }
            } else {
                None
            };
            return Ok(
                SourceTarget::GitHub {
                    owner: string_of(&parts[0]),
                    repo: string_of(&parts[1]),
                    subpath,
                },
            );
        }
        Err(
            message(
                "Invalid source '",
                &norm,
                "'. Expected: owner/repo, a git URL, or a local path.",
            ),
        )
    }
}

// ---------------------------------------------------------------------------
// URLs of a source
// ---------------------------------------------------------------------------

/// The web URL of the repository a source names.
pub open spec fn spec_repo_url(src: SkillSource) -> Option<Seq<char>> {
    match src {
        SkillSource::GitHub { owner, repo, .. } => Some(gh_https() + owner@ + "/"@ + repo@),
        SkillSource::GitUrl { url } => Some(url@),
        SkillSource::Local { .. } => None,
    }
}

/// The URL to clone the repository a source names from.
pub open spec fn spec_git_clone_url(src: SkillSource) -> Option<Seq<char>> {
    match src {
        SkillSource::GitHub { owner, repo, .. } => Some(
            gh_https() + owner@ + "/"@ + repo@ + dot_git(),
        ),
        SkillSource::GitUrl { url } => Some(url@),
        SkillSource::Local { .. } => None,
    }
}

/// The subpath within the repository, for a GitHub source that has one.
pub open spec fn spec_subpath(src: SkillSource) -> Option<Seq<char>> {
    match src {
        SkillSource::GitHub { subpath, .. } => opt_view(subpath),
        _ => None,
    }
}

impl SkillSource {
    /// The web URL of the repository: `https://github.com/{owner}/{repo}` for
    /// GitHub, the URL itself for a git URL, none for a local path.
    pub fn repo_url(&self) -> (r: Option<String>)
        ensures
            opt_view(r) == spec_repo_url(*self),
    {
        match self {
            SkillSource::GitHub { owner, repo, .. } => {
                let mut u = String::from_str("https://github.com/");
                u.append(owner.as_str());
                u.append("/");
                u.append(repo.as_str());
                Some(u)
            },
            SkillSource::GitUrl { url } => Some(url.clone()),
            SkillSource::Local { .. } => None,
        }
    }

    /// The URL to clone from: the GitHub web URL with `.git`, the URL itself
    /// for a git URL, none for a local path.
    pub fn git_clone_url(&self) -> (r: Option<String>)
        ensures
            opt_view(r) == spec_git_clone_url(*self),
    {
        match self {
            SkillSource::GitHub { owner, repo, .. } => {
                let mut u = String::from_str("https://github.com/");
                u.append(owner.as_str());
                u.append("/");
                u.append(repo.as_str());
                u.append(".git");
                Some(u)
            },
            SkillSource::GitUrl { url } => Some(url.clone()),
            SkillSource::Local { .. } => None,
        }
    }

    /// The subpath within a GitHub repository, where there is one.
    pub fn subpath(&self) -> (r: Option<&str>)
        ensures
            match r {
                Some(p) => spec_subpath(*self) == Some(p@),
                None => spec_subpath(*self) is None,
            },
    {
        match self {
            SkillSource::GitHub { subpath: Some(p), .. } => Some(p.as_str()),
            _ => None,
        }
    }
}


// ---------------------------------------------------------------------------
// Laws
// ---------------------------------------------------------------------------

/// The clone URL of a GitHub source is its repository URL with `.git`
/// appended; a git URL source is cloned from its own URL; a local source has
/// neither.
pub proof fn lemma_clone_url_from_repo_url(src: SkillSource)
    ensures
        src is GitHub ==> spec_repo_url(src) is Some && spec_git_clone_url(src) == Some(
            spec_repo_url(src).unwrap() + dot_git(),
        ),
        src is GitUrl ==> spec_git_clone_url(src) == spec_repo_url(src) && spec_repo_url(
            src,
        ) is Some,
        src is Local ==> spec_git_clone_url(src) is None && spec_repo_url(src) is None,
        spec_subpath(src) is Some ==> src is GitHub,
{
}


/// A GitHub source parsed from shorthand has a non-empty owner and
/// repository, neither holding a `/`, and a subpath that is non-empty where
/// there is one.
pub proof fn lemma_github_target_parts(s: Seq<char>)
    ensures
        target_of(s) matches Ok(TargetView::GitHub { owner, repo, subpath }) ==> {
            &&& owner.len() > 0 && !owner.contains('/')
            &&& repo.len() > 0 && !repo.contains('/')
            &&& (subpath matches Some(p) ==> p.len() > 0)
        },
{
    lemma_splitn_pieces(s, 3, '/');
}

/// A GitHub URL mentions `github.com/`.
proof fn lemma_url_mentions_github(s: Seq<char>)
    requires
        url_path(s) is Some,
    ensures
        mentions_github(s),
{
    reveal_strlit("https://github.com/");
    reveal_strlit("http://github.com/");
    reveal_strlit("github.com/");
    if starts_with(s, gh_https()) {
        assert(gh_https().subrange(8, 19) =~= gh_host());
        assert(s.subrange(8, 19) =~= s.subrange(0, 19).subrange(8, 19));
        assert(occurs_at(s, gh_host(), 8));
    } else {
        assert(gh_http().subrange(7, 18) =~= gh_host());
        assert(s.subrange(7, 18) =~= s.subrange(0, 18).subrange(7, 18));
        assert(occurs_at(s, gh_host(), 7));
    }
}

/// A single word that does not mention `github.com/` normalizes to itself
/// (GitHub shorthand passes through unchanged).
pub proof fn lemma_normalize_word_fixed(w: Seq<char>)
    requires
        w.len() > 0,
        no_ws(w),
        !mentions_github(w),
    ensures
        spec_normalize(w) == w,
{
    lemma_trim_no_ws(w);
    if url_path(w) is Some {
        lemma_url_mentions_github(w);
    }
    lemma_words_single(w);
    let ws = seq![w];
    assert(ws[0] == w);
    assert(ws.drop_first() =~= Seq::<Seq<char>>::empty());
    assert(first_match(ws.drop_first(), shorthand_word()) is None);
}

/// A line that is not itself a GitHub URL normalizes as its first word that
/// mentions `github.com/` does.
pub proof fn lemma_normalize_pasted(src: Seq<char>)
    requires
        github_url_target(trim(src)) is None,
        pasted_github_word(trim(src)) is Some,
    ensures
        spec_normalize(src) == spec_normalize(pasted_github_word(trim(src)).unwrap()),
{
    let s = trim(src);
    let w = pasted_github_word(s).unwrap();
    lemma_first_match_elem(words(s), github_word());
    lemma_words_elements(s);
    let k = choose|k: int| 0 <= k < words(s).len() && words(s)[k] == w;
    assert(words(s)[k].len() > 0 && no_ws(words(s)[k]));
    lemma_trim_no_ws(w);
    lemma_words_single(w);
    let ws = seq![w];
    assert(ws[0] == w);
    assert(first_match(ws, github_word()) == Some(w));
}

/// `https://github.com/{owner}/{repo}` normalizes to `{owner}/{repo}`, a
/// `.git` suffix of the repository dropped.
pub proof fn lemma_normalize_repo_url(owner: Seq<char>, repo: Seq<char>)
    requires
        !owner.contains('/'),
        !repo.contains('/'),
        repo.len() > 0,
        !is_ws(repo.last()),
    ensures
        spec_normalize(gh_https() + owner + slash() + repo) == owner + slash() + trim_end_matches(
            repo,
            dot_git(),
        ),
{
    reveal_strlit("https://github.com/");
    let s = gh_https() + owner + slash() + repo;
    assert(s[0] == 'h');
    assert(s.last() == repo.last());
    assert(('h' as u32) == 0x68);
    lemma_trim_ends(s);
    assert(s.subrange(0, 19) =~= gh_https());
    let path = owner + slash() + repo;
    assert(s.subrange(19, s.len() as int) =~= path);
    assert(url_path(s) == Some(path));
    assert(path.last() == repo.last());
    assert(!ends_with(path, slash())) by {
        if ends_with(path, slash()) {
            assert(path.subrange(path.len() - 1, path.len() as int)[0] == path.last());
            assert(repo.last() == repo[repo.len() - 1]);
        }
    }
    assert(trim_end_matches(path, slash()) == path);
    lemma_splitn_cons(owner, repo, 4, '/');
    lemma_splitn_single(repo, 3, '/');
    assert(splitn(path, 4, '/') =~= seq![owner, repo]);
}

/// `https://github.com/{owner}/{repo}/{tree|blob|raw|commit}/{branch}/{path}`
/// normalizes to `{owner}/{repo}/{path}`, a `.git` suffix of the repository
/// and a final file name dropped.
pub proof fn lemma_normalize_ref_url(
    owner: Seq<char>,
    repo: Seq<char>,
    seg: Seq<char>,
    branch: Seq<char>,
    path: Seq<char>,
)
    requires
        !owner.contains('/'),
        !repo.contains('/'),
        !seg.contains('/'),
        !branch.contains('/'),
        is_ref_segment(seg),
        path.len() > 0,
        path.last() != '/',
        !is_ws(path.last()),
    ensures
        ({
            let url = gh_https() + owner + slash() + repo + slash() + seg + slash() + branch + slash()
                + path;
            &&& spec_normalize(url) == with_subpath(
                owner + slash() + trim_end_matches(repo, dot_git()),
                spec_strip_trailing_files(path),
            )
        }),
{
    reveal_strlit("https://github.com/");
    let rest = branch + slash() + path;
    let p = owner + slash() + (repo + slash() + (seg + slash() + rest));
    let s = gh_https() + owner + slash() + repo + slash() + seg + slash() + branch + slash() + path;
    assert(s =~= gh_https() + p);
    assert(s[0] == 'h');
    assert(('h' as u32) == 0x68);
    assert(s.last() == path.last());
    lemma_trim_ends(s);
    assert(s.subrange(0, 19) =~= gh_https());
    assert(s.subrange(19, s.len() as int) =~= p);
    assert(url_path(s) == Some(p));
    assert(p.last() == path.last());
    assert(!ends_with(p, slash())) by {
        if ends_with(p, slash()) {
            assert(p.subrange(p.len() - 1, p.len() as int)[0] == p.last());
        }
    }
    assert(trim_end_matches(p, slash()) == p);
    lemma_splitn_cons(owner, repo + slash() + (seg + slash() + rest), 4, '/');
    lemma_splitn_cons(repo, seg + slash() + rest, 3, '/');
    lemma_splitn_cons(seg, rest, 2, '/');
    assert(splitn(rest, 1, '/') == seq![rest]);
    let parts = splitn(p, 4, '/');
    assert(parts =~= seq![owner, repo, seg, rest]);
    assert forall|j: int| 0 <= j < branch.len() implies rest[j] != '/' by {
        assert(rest[j] == branch[j]);
    }
    lemma_char_pos(rest, '/', branch.len() as int);
    assert(rest.subrange(branch.len() + 1int, rest.len() as int) =~= path);
}

/// A character of an owner or repository name: an ASCII letter or digit,
/// `-` or `_`.
pub open spec fn is_name_char(c: char) -> bool {
    let u = c as u32;
    ||| (0x30 <= u && u <= 0x39)
    ||| (0x41 <= u && u <= 0x5A)
    ||| (0x61 <= u && u <= 0x7A)
    ||| u == 0x2D
    ||| u == 0x5F
}

pub open spec fn is_name(x: Seq<char>) -> bool {
    x.len() > 0 && forall|i: int| 0 <= i < x.len() ==> is_name_char(#[trigger] x[i])
}

/// A path of name characters and `/`.
pub open spec fn is_path_name(x: Seq<char>) -> bool {
    x.len() > 0 && forall|i: int| 0 <= i < x.len() ==> is_name_char(#[trigger] x[i]) || x[i] == '/'
}

proof fn lemma_plain_shorthand(s: Seq<char>)
    requires
        is_path_name(s),
    ensures
        no_ws(s),
        !mentions_github(s),
        !is_git_url(s),
        forall|i: int| 0 <= i < s.len() ==> s[i] != '.' && s[i] != ':' && s[i] != '~' && s[i] != '@',
{
    assert(('.' as u32) == 0x2E && (':' as u32) == 0x3A && ('~' as u32) == 0x7E && ('@' as u32)
        == 0x40 && ('/' as u32) == 0x2F);
    assert forall|i: int| 0 <= i < s.len() implies !is_ws(#[trigger] s[i]) by {
        assert(is_name_char(s[i]) || s[i] == '/');
    }
    assert forall|i: int| 0 <= i < s.len() implies s[i] != '.' && s[i] != ':' && s[i] != '~'
        && s[i] != '@' by {
        assert(is_name_char(s[i]) || s[i] == '/');
    }
    reveal_strlit("github.com/");
    reveal_strlit("git@");
    reveal_strlit("git://");
    reveal_strlit(".git");
    if mentions_github(s) {
        let i = choose|i: int| occurs_at(s, gh_host(), i);
        assert(s.subrange(i, i + 11)[6] == s[i + 6]);
    }
    if starts_with(s, "git@"@) {
        assert(s.subrange(0, 4)[3] == s[3]);
    }
    if starts_with(s, "git://"@) {
        assert(s.subrange(0, 6)[3] == s[3]);
    }
    if ends_with(s, ".git"@) {
        assert(s.subrange(s.len() - 4, s.len() as int)[0] == s[s.len() - 4]);
    }
}

proof fn lemma_name_no_slash(x: Seq<char>)
    requires
        is_name(x),
    ensures
        !x.contains('/'),
        is_path_name(x),
{
    assert(('/' as u32) == 0x2F);
    assert forall|i: int| 0 <= i < x.len() implies x[i] != '/' by {
        assert(is_name_char(x[i]));
    }
}

/// GitHub shorthand `owner/repo` parses to that owner and repository.
pub proof fn lemma_resolve_shorthand(owner: Seq<char>, repo: Seq<char>)
    requires
        is_name(owner),
        is_name(repo),
    ensures
        target_of(spec_normalize(owner + slash() + repo)) == Ok::<TargetView, Seq<char>>(
            TargetView::GitHub { owner, repo, subpath: None },
        ),
{
    let s = owner + slash() + repo;
    lemma_name_no_slash(owner);
    lemma_name_no_slash(repo);
    assert(is_path_name(s)) by {
        assert forall|i: int| 0 <= i < s.len() implies is_name_char(#[trigger] s[i]) || s[i]
            == '/' by {
            if i < owner.len() {
                assert(s[i] == owner[i]);
            } else if i > owner.len() {
                assert(s[i] == repo[i - owner.len() - 1]);
            }
        }
    }
    lemma_plain_shorthand(s);
    lemma_normalize_word_fixed(s);
    assert(s[0] == owner[0]);
    assert(s.len() >= 3 ==> s[1] != ':');
    lemma_splitn_cons(owner, repo, 3, '/');
    lemma_splitn_single(repo, 2, '/');
    assert(splitn(s, 3, '/') =~= seq![owner, repo]);
    assert(!is_local_path(s)) by {
        if starts_with(s, seq!['/']) || starts_with(s, seq!['.', '/']) || starts_with(
            s,
            seq!['.', '.', '/'],
        ) || starts_with(s, seq!['~']) {
            assert(s.subrange(0, 1)[0] == s[0]);
        }
        if s == seq!['.'] {
            assert(s[0] == '.');
        }
    }
}

/// GitHub shorthand `owner/repo/subpath` parses to that owner, repository
/// and subpath.
pub proof fn lemma_resolve_shorthand_subpath(owner: Seq<char>, repo: Seq<char>, sub: Seq<char>)
    requires
        is_name(owner),
        is_name(repo),
        is_path_name(sub),
    ensures
        target_of(spec_normalize(owner + slash() + repo + slash() + sub)) == Ok::<
            TargetView,
            Seq<char>,
        >(TargetView::GitHub { owner, repo, subpath: Some(sub) }),
{
    let s = owner + slash() + repo + slash() + sub;
    assert(s =~= owner + slash() + (repo + slash() + sub));
    lemma_name_no_slash(owner);
    lemma_name_no_slash(repo);
    assert(is_path_name(s)) by {
        assert forall|i: int| 0 <= i < s.len() implies is_name_char(#[trigger] s[i]) || s[i]
            == '/' by {
            if i < owner.len() {
                assert(s[i] == owner[i]);
            } else if owner.len() < i < owner.len() + 1 + repo.len() {
                assert(s[i] == repo[i - owner.len() - 1]);
            } else if i > owner.len() + 1 + repo.len() {
                assert(s[i] == sub[i - owner.len() - repo.len() - 2]);
            }
        }
    }
    lemma_plain_shorthand(s);
    lemma_normalize_word_fixed(s);
    assert(s[0] == owner[0]);
    assert(s.len() >= 3 ==> s[1] != ':');
    lemma_splitn_cons(owner, repo + slash() + sub, 3, '/');
    lemma_splitn_cons(repo, sub, 2, '/');
    assert(splitn(sub, 1, '/') == seq![sub]);
    assert(splitn(s, 3, '/') =~= seq![owner, repo, sub]);
    assert(!is_local_path(s)) by {
        if starts_with(s, seq!['/']) || starts_with(s, seq!['.', '/']) || starts_with(
            s,
            seq!['.', '.', '/'],
        ) || starts_with(s, seq!['~']) {
            assert(s.subrange(0, 1)[0] == s[0]);
        }
        if s == seq!['.'] {
            assert(s[0] == '.');
        }
    }
}


/// Stripping trailing file names leaves a prefix of the path.
pub proof fn lemma_strip_trailing_files_prefix(path: Seq<char>)
    ensures
        starts_with(path, spec_strip_trailing_files(path)),
{
    let p = trim_end_matches(path, slash());
    lemma_trim_end_matches_prefix(path, slash());
    let r = spec_strip_trailing_files(path);
    if let Some(k) = last_pos(p, '/') {
        lemma_last_pos_bound(p, '/');
    }
    assert(r.len() <= p.len());
    assert(r == p.subrange(0, r.len() as int));
    assert(path.subrange(0, r.len() as int) =~= p.subrange(0, r.len() as int));
}


/// An absolute path (`/...`), a relative path (`./...`, `../...`) and `.`
/// are local paths, kept as written.
pub proof fn lemma_local_paths(s: Seq<char>)
    requires
        (s.len() > 0 && s[0] == '/') || starts_with(s, seq!['.', '/']) || starts_with(
            s,
            seq!['.', '.', '/'],
        ) || s == seq!['.'],
    ensures
        target_of(s) == Ok::<TargetView, Seq<char>>(TargetView::LocalPath { path: s }),
{
    assert(('/' as u32) == 0x2F && ('.' as u32) == 0x2E && ('~' as u32) == 0x7E);
    if s.len() > 0 && s[0] == '/' {
        assert(s.subrange(0, 1) =~= seq!['/']);
    } else if starts_with(s, seq!['.', '/']) {
        assert(s.subrange(0, 2)[0] == s[0]);
    } else if starts_with(s, seq!['.', '.', '/']) {
        assert(s.subrange(0, 3)[0] == s[0]);
    } else {
        assert(s[0] == '.');
    }
}

/// A `~` path is put under the home directory, one leading `/` or `\` after
/// the `~` dropped.
pub proof fn lemma_home_path(sep: Seq<char>, rest: Seq<char>)
    requires
        sep.len() == 0 || sep == seq!['/'] || sep == seq!['\\'],
        sep.len() == 0 ==> !(rest.len() > 0 && (rest[0] == '/' || rest[0] == '\\')),
    ensures
        target_of(seq!['~'] + sep + rest) == Ok::<TargetView, Seq<char>>(
            TargetView::HomeRelative { rest },
        ),
{
    let s = seq!['~'] + sep + rest;
    assert(s[0] == '~');
    assert(s.subrange(0, 1) =~= seq!['~']);
    assert(s.drop_first() =~= sep + rest);
    if sep.len() > 0 {
        assert((sep + rest)[0] == sep[0]);
        assert((sep + rest).drop_first() =~= rest);
    } else {
        assert(sep + rest =~= rest);
    }
}

/// Given an absolute path (one word, naming no `github.com/` URL), parsing
/// a source gives that local path.
pub proof fn lemma_resolve_absolute_path(s: Seq<char>)
    requires
        s.len() > 0,
        s[0] == '/',
        no_ws(s),
        !mentions_github(s),
    ensures
        target_of(spec_normalize(s)) == Ok::<TargetView, Seq<char>>(
            TargetView::LocalPath { path: s },
        ),
{
    lemma_normalize_word_fixed(s);
    lemma_local_paths(s);
}

proof fn lemma_last_component(q: Seq<char>, c: Seq<char>)
    requires
        c.len() > 0,
        !c.contains('/'),
    ensures
        trim_end_matches(q + slash() + c, slash()) == q + slash() + c,
        last_pos(q + slash() + c, '/') == Some(q.len() as int),
        (q + slash() + c).subrange(q.len() + 1int, (q + slash() + c).len() as int) == c,
        (q + slash() + c).subrange(0, q.len() as int) == q,
{
    let p = q + slash() + c;
    assert(p.last() == c.last());
    assert(c.last() == c[c.len() - 1]);
    assert(!ends_with(p, slash())) by {
        if ends_with(p, slash()) {
            assert(p.subrange(p.len() - 1, p.len() as int)[0] == p.last());
        }
    }
    assert forall|j: int| q.len() < j < p.len() implies p[j] != '/' by {
        assert(p[j] == c[j - q.len() - 1]);
    }
    lemma_last_pos(p, '/', q.len() as int);
    assert(p.subrange(q.len() + 1int, p.len() as int) =~= c);
    assert(p.subrange(0, q.len() as int) =~= q);
}

/// A last path component without a `.` names a directory and is kept, however
/// many dots the earlier components hold.
pub proof fn lemma_strip_keeps_directory(q: Seq<char>, c: Seq<char>)
    requires
        c.len() > 0,
        !c.contains('/'),
        !c.contains('.'),
    ensures
        spec_strip_trailing_files(q + slash() + c) == q + slash() + c,
{
    lemma_last_component(q, c);
}

/// A last path component with a `.` names a file and is dropped with its
/// slash; nothing before it changes.
pub proof fn lemma_strip_drops_file(q: Seq<char>, c: Seq<char>)
    requires
        c.len() > 0,
        !c.contains('/'),
        c.contains('.'),
    ensures
        spec_strip_trailing_files(q + slash() + c) == q,
{
    lemma_last_component(q, c);
}

/// A path of one component is kept unless it names a file, which leaves
/// nothing.
pub proof fn lemma_strip_single_component(c: Seq<char>)
    requires
        c.len() > 0,
        !c.contains('/'),
    ensures
        spec_strip_trailing_files(c) == if c.contains('.') {
            Seq::<char>::empty()
        } else {
            c
        },
{
    assert(c.last() == c[c.len() - 1]);
    assert(!ends_with(c, slash())) by {
        if ends_with(c, slash()) {
            assert(c.subrange(c.len() - 1, c.len() as int)[0] == c.last());
        }
    }
    assert forall|j: int| -1 < j < c.len() implies c[j] != '/' by {}
    lemma_last_pos(c, '/', -1);
}

/// Trailing slashes do not change what stripping file names gives.
pub proof fn lemma_strip_ignores_trailing_slash(p: Seq<char>)
    ensures
        spec_strip_trailing_files(p + slash()) == spec_strip_trailing_files(p),
{
    let s = p + slash();
    assert(s.subrange(s.len() - 1, s.len() as int) =~= slash());
    assert(s.subrange(0, s.len() - 1) =~= p);
}


/// `https://github.com/{owner}/{repo}/{seg}/{rest}`, where `seg` is not
/// `tree`, `blob`, `raw` or `commit`, normalizes to `{owner}/{repo}` followed
/// by the path `{seg}/{rest}` with a final file name dropped.
pub proof fn lemma_normalize_subpath_url(
    owner: Seq<char>,
    repo: Seq<char>,
    seg: Seq<char>,
    rest: Seq<char>,
)
    requires
        !owner.contains('/'),
        !repo.contains('/'),
        !seg.contains('/'),
        !is_ref_segment(seg),
        rest.len() > 0,
        rest.last() != '/',
        !is_ws(rest.last()),
    ensures
        spec_normalize(gh_https() + owner + slash() + repo + slash() + seg + slash() + rest)
            == with_subpath(
            owner + slash() + trim_end_matches(repo, dot_git()),
            spec_strip_trailing_files(seg + slash() + rest),
        ),
{
    reveal_strlit("https://github.com/");
    let p = owner + slash() + (repo + slash() + (seg + slash() + rest));
    let s = gh_https() + owner + slash() + repo + slash() + seg + slash() + rest;
    assert(s =~= gh_https() + p);
    assert(s[0] == 'h');
    assert(('h' as u32) == 0x68);
    assert(s.last() == rest.last());
    lemma_trim_ends(s);
    assert(s.subrange(0, 19) =~= gh_https());
    assert(s.subrange(19, s.len() as int) =~= p);
    assert(url_path(s) == Some(p));
    assert(p.last() == rest.last());
    assert(!ends_with(p, slash())) by {
        if ends_with(p, slash()) {
            assert(p.subrange(p.len() - 1, p.len() as int)[0] == p.last());
        }
    }
    assert(trim_end_matches(p, slash()) == p);
    lemma_splitn_cons(owner, repo + slash() + (seg + slash() + rest), 4, '/');
    lemma_splitn_cons(repo, seg + slash() + rest, 3, '/');
    lemma_splitn_cons(seg, rest, 2, '/');
    assert(splitn(rest, 1, '/') == seq![rest]);
    assert(splitn(p, 4, '/') =~= seq![owner, repo, seg, rest]);
}

/// `git@...` and `git://...` sources, and any other source ending in `.git`
/// that is no local path, are git URLs, kept as written.
pub proof fn lemma_git_urls(s: Seq<char>)
    requires
        starts_with(s, "git@"@) || starts_with(s, "git://"@) || (ends_with(s, ".git"@)
            && !is_local_path(s)),
    ensures
        target_of(s) == Ok::<TargetView, Seq<char>>(TargetView::GitUrl { url: s }),
{
    reveal_strlit("git@");
    reveal_strlit("git://");
    if starts_with(s, "git@"@) || starts_with(s, "git://"@) {
        assert(s.subrange(0, 3)[0] == s[0]);
        assert(s.subrange(0, 3)[1] == s[1]);
        assert(s[0] == 'g' && s[1] == 'i');
        assert(('g' as u32) == 0x67 && ('i' as u32) == 0x69);
        assert(!is_local_path(s)) by {
            if starts_with(s, seq!['/']) || starts_with(s, seq!['.', '/']) || starts_with(
                s,
                seq!['.', '.', '/'],
            ) || starts_with(s, seq!['~']) {
                assert(s.subrange(0, 1)[0] == s[0]);
            }
            if s == seq!['.'] {
                assert(s[0] == '.');
            }
        }
    }
}


/// From a command line whose earlier words hold no `/` and that mentions no
/// `github.com/`, the `owner/repo` word is picked, whatever its name starts
/// with (`git...` and `http...` names included).
pub proof fn lemma_normalize_picks_shorthand(
    a: Seq<char>,
    owner: Seq<char>,
    repo: Seq<char>,
    b: Seq<char>,
)
    requires
        a.len() > 0,
        !is_ws(a[0]),
        b.len() > 0,
        !is_ws(b.last()),
        forall|k: int| 0 <= k < words(a).len() ==> !(#[trigger] words(a)[k]).contains('/'),
        is_name(owner),
        is_name(repo),
        owner[0] != '-',
        !mentions_github(a + seq![' '] + (owner + slash() + repo) + seq![' '] + b),
    ensures
        spec_normalize(a + seq![' '] + (owner + slash() + repo) + seq![' '] + b) == owner + slash()
            + repo,
{
    let w = owner + slash() + repo;
    let sp = seq![' '];
    let src = a + sp + w + sp + b;
    assert(src[0] == a[0]);
    assert(src.last() == b.last());
    lemma_trim_ends(src);
    if url_path(src) is Some {
        lemma_url_mentions_github(src);
    }
    // The word `w`.
    lemma_name_no_slash(owner);
    lemma_name_no_slash(repo);
    assert(is_path_name(w)) by {
        assert forall|i: int| 0 <= i < w.len() implies is_name_char(#[trigger] w[i]) || w[i]
            == '/' by {
            if i < owner.len() {
                assert(w[i] == owner[i]);
            } else if i > owner.len() {
                assert(w[i] == repo[i - owner.len() - 1]);
            }
        }
    }
    lemma_plain_shorthand(w);
    lemma_words_single(w);
    // The words of the line.
    assert(src =~= a + sp + (w + sp + b));
    lemma_words_concat(a, w + sp + b);
    lemma_words_concat(w, b);
    assert(words(src) =~= words(a) + (seq![w] + words(b)));
    lemma_first_match_concat(words(a), seq![w] + words(b), shorthand_word());
    // `w` looks like `owner/repo`.
    reveal_strlit("http://");
    reveal_strlit("https://");
    reveal_strlit("git@");
    reveal_strlit("git://");
    assert(('-' as u32) == 0x2D && ('/' as u32) == 0x2F && ('.' as u32) == 0x2E);
    assert(w[0] == owner[0]);
    assert(w[owner.len() as int] == '/');
    assert(w.contains('/'));
    assert(is_shorthand_word(w)) by {
        if starts_with(w, seq!['-']) || starts_with(w, seq!['/']) || starts_with(w, seq!['.']) {
            assert(w.subrange(0, 1)[0] == w[0]);
            assert(is_name_char(owner[0]));
        }
        if starts_with(w, "http://"@) {
            assert(w.subrange(0, 7)[4] == w[4]);
        }
        if starts_with(w, "https://"@) {
            assert(w.subrange(0, 8)[5] == w[5]);
        }
        if starts_with(w, "git@"@) {
            assert(w.subrange(0, 4)[3] == w[3]);
        }
        if starts_with(w, "git://"@) {
            assert(w.subrange(0, 6)[3] == w[3]);
        }
    }
    assert((seq![w] + words(b))[0] == w);
}

} // verus!
