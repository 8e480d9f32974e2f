//! SKILL.md frontmatter: the `---`-fenced YAML header and its `name`,
//! `description` and `version` fields.
use vstd::prelude::*;
use crate::text::{
    all_ws, char_pos, chars_of, is_ws, lemma_char_pos, lemma_char_pos_bound, lemma_lines_concat,
    lemma_lines_of_line, lemma_trim_end_all_ws, lemma_trim_end_concat, lemma_trim_end_prefix,
    lemma_trim_ends, lemma_trim_start_all_ws, lemma_trim_ws_suffix, lines, lines_of, seq_eq,
    slice_chars, starts_with, starts_with_exec, string_of, strip_cr, trim, trim_end, trim_of,
    trim_start, trim_start_of, views, whole_lines,
};

verus! {

#[derive(Debug)]
pub struct SkillFrontmatter {
    pub name: String,
    pub description: String,
    pub version: Option<String>,
}

/// What a parsed frontmatter holds, as text.
pub struct FrontmatterView {
    pub name: Seq<char>,
    pub description: Seq<char>,
    pub version: Option<Seq<char>>,
}

pub open spec fn opt_view(o: Option<String>) -> Option<Seq<char>> {
    match o {
        Some(s) => Some(s@),
        None => None,
    }
}

impl View for SkillFrontmatter {
    type V = FrontmatterView;

    open spec fn view(&self) -> FrontmatterView {
        FrontmatterView {
            name: self.name@,
            description: self.description@,
            version: opt_view(self.version),
        }
    }
}

// ---------------------------------------------------------------------------
// UTF-8 byte lengths
// ---------------------------------------------------------------------------

/// Bytes that `c` takes in UTF-8 (`char::len_utf8`).
pub open spec fn utf8_width(c: char) -> nat {
    let u = c as u32;
    if u < 0x80 {
        1
    } else if u < 0x800 {
        2
    } else if u < 0x10000 {
        3
    } else {
        4
    }
}

/// Bytes that `s` takes in UTF-8 (`str::len`).
pub open spec fn byte_len(s: Seq<char>) -> nat
    decreases s.len(),
{
    if s.len() == 0 {
        0
    } else {
        byte_len(s.drop_last()) + utf8_width(s.last())
    }
}

/// `char::len_utf8`.
pub fn utf8_len_of(c: char) -> (w: usize)
    ensures
        w == utf8_width(c),
{
    let u = c as u32;
    if u < 0x80 {
        1
    } else if u < 0x800 {
        2
    } else if u < 0x10000 {
        3
    } else {
        4
    }
}

proof fn lemma_byte_len_concat(a: Seq<char>, b: Seq<char>)
    ensures
        byte_len(a + b) == byte_len(a) + byte_len(b),
    decreases b.len(),
{
    if b.len() == 0 {
        assert(a + b =~= a);
    } else {
        assert((a + b).drop_last() =~= a + b.drop_last());
        lemma_byte_len_concat(a, b.drop_last());
    }
}

proof fn lemma_byte_len_take_step(s: Seq<char>, j: int)
    requires
        0 <= j < s.len(),
    ensures
        byte_len(s.subrange(0, j + 1)) == byte_len(s.subrange(0, j)) + utf8_width(s[j]),
{
    assert(s.subrange(0, j + 1).drop_last() =~= s.subrange(0, j));
}

proof fn lemma_byte_len_mono(s: Seq<char>, i: int, j: int)
    requires
        0 <= i < j <= s.len(),
    ensures
        byte_len(s.subrange(0, i)) < byte_len(s.subrange(0, j)),
    decreases j - i,
{
    lemma_byte_len_take_step(s, j - 1);
    if i < j - 1 {
        lemma_byte_len_mono(s, i, j - 1);
    }
}

// ---------------------------------------------------------------------------
// The closing fence
// ---------------------------------------------------------------------------

pub open spec fn fence() -> Seq<char> {
    seq!['-', '-', '-']
}

pub open spec fn shift(o: Option<int>, d: int) -> Option<int> {
    match o {
        Some(m) => Some(m + d),
        None => None,
    }
}

/// Index of the character where the first line of `s` (as `str::lines`
/// yields it) whose trimmed text is `---` starts.
pub open spec fn fence_start(s: Seq<char>) -> Option<int>
    decreases s.len(),
{
    if s.len() == 0 {
        None
    } else {
        let k = char_pos(s, '\n');
        if k < s.len() {
            if trim(strip_cr(s.subrange(0, k as int))) == fence() {
                Some(0)
            } else {
                shift(fence_start(s.subrange(k + 1int, s.len() as int)), k + 1int)
            }
        } else if trim(s) == fence() {
            Some(0)
        } else {
            None
        }
    }
}

/// What `find_closing_fence` returns: the byte index where the first line
/// whose trimmed text is `---` starts.
pub open spec fn spec_find_closing_fence(s: Seq<char>) -> Option<nat> {
    match fence_start(s) {
        Some(m) => Some(byte_len(s.subrange(0, m))),
        None => None,
    }
}

pub proof fn lemma_fence_start_bound(s: Seq<char>)
    ensures
        fence_start(s) matches Some(m) ==> 0 <= m < s.len(),
    decreases s.len(),
{
    if s.len() > 0 {
        let k = char_pos(s, '\n');
        lemma_char_pos_bound(s, '\n');
        if k < s.len() {
            lemma_fence_start_bound(s.subrange(k + 1int, s.len() as int));
        }
    }
}

/// The byte index of the first line whose trimmed text is `---` (the closing
/// fence of a frontmatter).
pub fn find_closing_fence(content: &str) -> (r: Option<usize>)
    requires
        byte_len(content@) <= usize::MAX,
    ensures
        match r {
            Some(k) => spec_find_closing_fence(content@) == Some(k as nat),
            None => spec_find_closing_fence(content@) is None,
        },
{
    let text = chars_of(content);
    let n = text.len();
    let dashes = ['-', '-', '-'];
    assert(dashes@ =~= fence());
    assert(text@.subrange(0, n as int) =~= text@);
    assert(text@.subrange(0, 0) =~= Seq::<char>::empty());
    let mut st: usize = 0;
    let mut off: usize = 0;
    let mut acc: usize = 0;
    let mut i: usize = 0;
    while i < n
        invariant
            st <= i <= n,
            n == text.len(),
            text@ == content@,
            byte_len(text@) <= usize::MAX,
            text@.subrange(0, n as int) == text@,
            forall|k: int| st <= k < i ==> text@[k] != '\n',
            off == byte_len(text@.subrange(0, st as int)),
            acc == byte_len(text@.subrange(0, i as int)),
            fence_start(text@) == shift(fence_start(text@.subrange(st as int, n as int)), st as int),
            dashes@ == fence(),
        decreases n - i,
    {
        proof {
            lemma_byte_len_take_step(text@, i as int);
            if i + 1 < n {
                lemma_byte_len_mono(text@, i + 1, n as int);
            }
        }
        acc = acc + utf8_len_of(text[i]);
        if text[i] == '\n' {
            let ghost t = text@.subrange(st as int, n as int);
            proof {
                assert forall|k: int| 0 <= k < i - st implies t[k] != '\n' by {
                    assert(t[k] == text@[st + k]);
                }
                lemma_char_pos(t, '\n', i - st);
                assert(t.subrange(0, i - st) =~= text@.subrange(st as int, i as int));
                assert(t.subrange(i - st + 1, t.len() as int) =~= text@.subrange(i + 1, n as int));
            }
            let end = if i > st && text[i - 1] == '\r' {
                i - 1
            } else {
                i
            };
            let line = slice_chars(&text, st, end);
            assert(line@ =~= strip_cr(text@.subrange(st as int, i as int)));
            let tl = trim_of(&line);
            if seq_eq(&tl, &dashes) {
                return Some(off);
            }
            st = i + 1;
            off = acc;
        }
        i = i + 1;
    }
    if st < n {
        let ghost t = text@.subrange(st as int, n as int);
        proof {
            assert forall|k: int| 0 <= k < t.len() implies t[k] != '\n' by {
                assert(t[k] == text@[st + k]);
            }
            lemma_char_pos(t, '\n', t.len() as int);
        }
        let line = slice_chars(&text, st, n);
        let tl = trim_of(&line);
        if seq_eq(&tl, &dashes) {
            return Some(off);
        }
    }
    None
}

// ---------------------------------------------------------------------------
// Cutting at a byte offset
// ---------------------------------------------------------------------------

/// The number of characters of `s` before byte offset `b`, where `b` falls
/// between two characters.
fn char_index_of_byte(s: &Vec<char>, b: usize) -> (r: Option<usize>)
    ensures
        match r {
            Some(j) => j <= s.len() && byte_len(s@.subrange(0, j as int)) == b,
            None => forall|k: int| 0 <= k <= s.len() ==> byte_len(s@.subrange(0, k)) != b,
        },
{
    let mut j: usize = 0;
    let mut acc: usize = 0;
    assert(s@.subrange(0, 0) =~= Seq::<char>::empty());
    while j < s.len() && acc < b
        invariant
            j <= s.len(),
            acc == byte_len(s@.subrange(0, j as int)),
            forall|k: int| 0 <= k < j ==> byte_len(s@.subrange(0, k)) < b,
        decreases s.len() - j,
    {
        proof {
            lemma_byte_len_take_step(s@, j as int);
            assert forall|k: int| 0 <= k < j + 1 implies byte_len(s@.subrange(0, k)) < b by {
                if k < j {
                } else {
                    assert(s@.subrange(0, k) == s@.subrange(0, j as int));
                }
            }
        }
        let w = utf8_len_of(s[j]);
        if w > b - acc {
            proof {
                assert forall|k: int| 0 <= k <= s.len() implies byte_len(s@.subrange(0, k)) != b by {
                    if k > j {
                        if k > j + 1 {
                            lemma_byte_len_mono(s@, j + 1, k);
                        }
                    }
                }
            }
            return None;
        }
        acc = acc + w;
        j = j + 1;
    }
    if acc == b {
        Some(j)
    } else {
        proof {
            assert forall|k: int| 0 <= k <= s.len() implies byte_len(s@.subrange(0, k)) != b by {
                if k > j {
                    lemma_byte_len_mono(s@, j as int, k);
                } else if k == j {
                }
            }
        }
        None
    }
}

// ---------------------------------------------------------------------------
// Field extraction
// ---------------------------------------------------------------------------

/// For a line `key: value` (spaces allowed around the key and before the
/// colon), the trimmed text after the colon.
pub open spec fn key_value(line: Seq<char>, key: Seq<char>) -> Option<Seq<char>> {
    let t = trim(line);
    if starts_with(t, key) {
        let rest = trim_start(t.subrange(key.len() as int, t.len() as int));
        if rest.len() > 0 && rest[0] == ':' {
            Some(trim(rest.drop_first()))
        } else {
            None
        }
    } else {
        None
    }
}

/// `v` without one pair of surrounding double quotes, or else of single quotes.
pub open spec fn unquote(v: Seq<char>) -> Seq<char> {
    if v.len() >= 2 && v[0] == '"' && v.last() == '"' {
        v.subrange(1, v.len() - 1)
    } else if v.len() >= 2 && v[0] == '\'' && v.last() == '\'' {
        v.subrange(1, v.len() - 1)
    } else {
        v
    }
}

/// The run of indented lines (first character a space or a tab) from line
/// `j` on, each trimmed.
pub open spec fn block_lines(ls: Seq<Seq<char>>, j: int) -> Seq<Seq<char>>
    decreases ls.len() - j,
{
    if 0 <= j < ls.len() && ls[j].len() > 0 && (ls[j][0] == ' ' || ls[j][0] == '\t') {
        seq![trim(ls[j])] + block_lines(ls, j + 1)
    } else {
        seq![]
    }
}

/// `parts` joined with `sep` between them (`[&str]::join`).
pub open spec fn join(parts: Seq<Seq<char>>, sep: Seq<char>) -> Seq<char>
    decreases parts.len(),
{
    if parts.len() == 0 {
        seq![]
    } else if parts.len() == 1 {
        parts[0]
    } else {
        join(parts.drop_last(), sep) + sep + parts.last()
    }
}

pub open spec fn folded_marker() -> Seq<char> {
    seq!['>']
}

pub open spec fn literal_marker() -> Seq<char> {
    seq!['|']
}

/// The value of `key` found from line `i` on: the first line that names the
/// key with a non-empty value, or with a block marker (`>` folds the indented
/// lines that follow with spaces, `|` keeps them on separate lines). A block
/// that comes out empty gives no value.
pub open spec fn field_from(ls: Seq<Seq<char>>, key: Seq<char>, i: int) -> Option<Seq<char>>
    decreases ls.len() - i,
{
    if i < 0 || i >= ls.len() {
        None
    } else {
        match key_value(ls[i], key) {
            Some(v) => if v == folded_marker() || v == literal_marker() {
                let sep = if v == folded_marker() {
                    seq![' ']
                } else {
                    seq!['\n']
                };
                let joined = join(block_lines(ls, i + 1), sep);
                if joined.len() > 0 {
                    Some(joined)
                } else {
                    None
                }
            } else if unquote(v).len() > 0 {
                Some(unquote(v))
            } else {
                field_from(ls, key, i + 1)
            },
            None => field_from(ls, key, i + 1),
        }
    }
}

/// What `extract_field` returns for the frontmatter text `fm`.
pub open spec fn spec_extract_field(fm: Seq<char>, key: Seq<char>) -> Option<Seq<char>> {
    field_from(lines(fm), key, 0)
}

fn unquote_exec(v: &Vec<char>) -> (r: Vec<char>)
    ensures
        r@ == unquote(v@),
{
    let n = v.len();
    if n >= 2 && v[0] == '"' && v[n - 1] == '"' {
        slice_chars(v, 1, n - 1)
    } else if n >= 2 && v[0] == '\'' && v[n - 1] == '\'' {
        slice_chars(v, 1, n - 1)
    } else {
        v.clone()
    }
}

fn join_exec(parts: &Vec<Vec<char>>, sep: &[char]) -> (r: Vec<char>)
    ensures
        r@ == join(views(parts@), sep@),
{
    if parts.len() == 0 {
        return Vec::new();
    }
    let mut out = parts[0].clone();
    let mut k: usize = 1;
    proof {
        assert(views(parts@).subrange(0, 1).len() == 1);
        assert(views(parts@).subrange(0, 1)[0] == parts@[0]@);
    }
    while k < parts.len()
        invariant
            1 <= k <= parts.len(),
            out@ == join(views(parts@).subrange(0, k as int), sep@),
        decreases parts.len() - k,
    {
        let ghost pre = views(parts@).subrange(0, k as int);
        let ghost nxt = views(parts@).subrange(0, k + 1);
        assert(nxt.drop_last() =~= pre);
        assert(nxt.last() == parts@[k as int]@);
        let mut i: usize = 0;
        let ghost base = out@;
        while i < sep.len()
            invariant
                i <= sep.len(),
                out@ == base + sep@.subrange(0, i as int),
            decreases sep.len() - i,
        {
            out.push(sep[i]);
            i = i + 1;
            assert(out@ =~= base + sep@.subrange(0, i as int));
        }
        assert(sep@.subrange(0, sep.len() as int) =~= sep@);
        let piece = &parts[k];
        let ghost mid = out@;
        let mut j: usize = 0;
        while j < piece.len()
            invariant
                j <= piece.len(),
                out@ == mid + piece@.subrange(0, j as int),
            decreases piece.len() - j,
        {
            out.push(piece[j]);
            j = j + 1;
            assert(out@ =~= mid + piece@.subrange(0, j as int));
        }
        assert(piece@.subrange(0, piece.len() as int) =~= piece@);
        k = k + 1;
    }
    assert(views(parts@).subrange(0, parts.len() as int) =~= views(parts@));
    out
}

/// The value of the key `field` in the frontmatter text (see `field_from`).
pub fn extract_field(frontmatter: &str, field: &str) -> (r: Option<String>)
    ensures
        opt_view(r) == spec_extract_field(frontmatter@, field@),
{
    let fm = chars_of(frontmatter);
    let key = chars_of(field);
    let ls = lines_of(&fm);
    let ghost sl = lines(fm@);
    assert(ls@.len() == sl.len());
    let mut i: usize = 0;
    while i < ls.len()
        invariant
            i <= ls.len(),
            views(ls@) == sl,
            sl == lines(frontmatter@),
            key@ == field@,
            field_from(sl, key@, 0) == field_from(sl, key@, i as int),
        decreases ls.len() - i,
    {
        assert(ls@[i as int]@ == sl[i as int]);
        let line = trim_of(&ls[i]);
        if starts_with_exec(&line, key.as_slice()) {
            let rest = trim_start_of(&slice_chars(&line, key.len(), line.len()));
            if rest.len() > 0 && rest[0] == ':' {
                let value = trim_of(&slice_chars(&rest, 1, rest.len()));
                assert(rest@.drop_first() =~= rest@.subrange(1, rest.len() as int));
                assert(key_value(sl[i as int], key@) == Some(value@));
                let gt = ['>'];
                let bar = ['|'];
                assert(gt@ =~= folded_marker());
                assert(bar@ =~= literal_marker());
                let folded = seq_eq(&value, &gt);
                if folded || seq_eq(&value, &bar) {
                    let mut parts: Vec<Vec<char>> = Vec::new();
                    let ghost start = i + 1;
                    i = i + 1;
                    loop
                        invariant
                            start <= i <= ls.len(),
                            views(ls@) == sl,
                            block_lines(sl, start) == views(parts@) + block_lines(sl, i as int),
                        ensures
                            block_lines(sl, start) == views(parts@),
                        decreases ls.len() - i,
                    {
                        if i >= ls.len() {
                            assert(views(parts@) =~= views(parts@) + seq![]);
                            break;
                        }
                        let next = &ls[i];
                        assert(next@ == sl[i as int]);
                        if next.len() > 0 && (next[0] == ' ' || next[0] == '\t') {
                            let ghost before = parts@;
                            parts.push(trim_of(next));
                            assert(views(parts@) =~= views(before) + seq![trim(sl[i as int])]);
                        } else {
                            assert(views(parts@) =~= views(parts@) + seq![]);
                            break;
                        }
                        i = i + 1;
                    }
                    let joined = if folded {
                        let sp = [' '];
                        assert(sp@ =~= seq![' ']);
                        join_exec(&parts, &sp)
                    } else {
                        let nl = ['\n'];
                        assert(nl@ =~= seq!['\n']);
                        join_exec(&parts, &nl)
                    };
                    if joined.len() > 0 {
                        return Some(string_of(&joined));
                    }
                    return None;
                }
                let unq = unquote_exec(&value);
                if unq.len() > 0 {
                    return Some(string_of(&unq));
                }
            }
        }
        i = i + 1;
    }
    None
}


// ---------------------------------------------------------------------------
// The frontmatter
// ---------------------------------------------------------------------------

pub open spec fn msg_no_frontmatter() -> Seq<char> {
    "SKILL.md must start with YAML frontmatter (---)"@
}

pub open spec fn msg_no_newline() -> Seq<char> {
    "SKILL.md frontmatter: expected newline after opening ---"@
}

pub open spec fn msg_no_closing() -> Seq<char> {
    "SKILL.md frontmatter missing closing ---"@
}

pub open spec fn msg_missing_name() -> Seq<char> {
    "SKILL.md missing required 'name' field in frontmatter"@
}

pub open spec fn msg_missing_description() -> Seq<char> {
    "SKILL.md missing required 'description' field in frontmatter"@
}

/// The text after the opening `---` of `t`, when a `\n` or `\r\n` follows it.
pub open spec fn after_open(t: Seq<char>) -> Option<Seq<char>> {
    let a = t.subrange(3, t.len() as int);
    if a.len() > 0 && a[0] == '\n' {
        Some(a.drop_first())
    } else if a.len() > 1 && a[0] == '\r' && a[1] == '\n' {
        Some(a.subrange(2, a.len() as int))
    } else {
        None
    }
}

/// The frontmatter text of `a` (the text after the opening fence): what
/// precedes the closing fence line, or `None` without one.
pub open spec fn frontmatter_text(a: Seq<char>) -> Option<Seq<char>> {
    match fence_start(a) {
        Some(m) => Some(a.subrange(0, m)),
        None => None,
    }
}

/// What parsing `content` gives: the parsed fields, or the error message.
pub open spec fn spec_parse_frontmatter(content: Seq<char>) -> Result<FrontmatterView, Seq<char>> {
    let t = trim(content);
    if !starts_with(t, fence()) {
        Err(msg_no_frontmatter())
    } else {
        match after_open(t) {
            None => Err(msg_no_newline()),
            Some(a) => match frontmatter_text(a) {
                None => Err(msg_no_closing()),
                Some(fm) => match spec_extract_field(fm, "name"@) {
                    None => Err(msg_missing_name()),
                    Some(name) => match spec_extract_field(fm, "description"@) {
                        None => Err(msg_missing_description()),
                        Some(description) => Ok(
                            FrontmatterView {
                                name,
                                description,
                                version: spec_extract_field(fm, "version"@),
                            },
                        ),
                    },
                },
            },
        }
    }
}

pub open spec fn result_view(r: Result<SkillFrontmatter, String>) -> Result<FrontmatterView, Seq<char>> {
    match r {
        Ok(fm) => Ok(fm@),
        Err(e) => Err(e@),
    }
}

proof fn lemma_byte_len_trim_start(s: Seq<char>)
    ensures
        byte_len(trim_start(s)) <= byte_len(s),
    decreases s.len(),
{
    if s.len() > 0 {
        lemma_byte_len_trim_start(s.drop_first());
        assert(s =~= seq![s[0]] + s.drop_first());
        lemma_byte_len_concat(seq![s[0]], s.drop_first());
    }
}

proof fn lemma_byte_len_trim_end(s: Seq<char>)
    ensures
        byte_len(trim_end(s)) <= byte_len(s),
    decreases s.len(),
{
    if s.len() > 0 {
        lemma_byte_len_trim_end(s.drop_last());
    }
}

proof fn lemma_byte_len_trim(s: Seq<char>)
    ensures
        byte_len(trim(s)) <= byte_len(s),
{
    lemma_byte_len_trim_start(s);
    lemma_byte_len_trim_end(trim_start(s));
}

proof fn lemma_byte_len_suffix(s: Seq<char>, i: int)
    requires
        0 <= i <= s.len(),
    ensures
        byte_len(s.subrange(i, s.len() as int)) <= byte_len(s),
{
    assert(s =~= s.subrange(0, i) + s.subrange(i, s.len() as int));
    lemma_byte_len_concat(s.subrange(0, i), s.subrange(i, s.len() as int));
}

/// Parses the YAML frontmatter at the start of a SKILL.md text: the `name`
/// and `description` fields are required, `version` is optional.
pub fn parse_frontmatter(content: &str) -> (r: Result<SkillFrontmatter, String>)
    requires
        byte_len(content@) <= usize::MAX,
    ensures
        result_view(r) == spec_parse_frontmatter(content@),
{
    let all = chars_of(content);
    let trimmed = trim_of(&all);
    let dashes = ['-', '-', '-'];
    assert(dashes@ =~= fence());
    if !starts_with_exec(&trimmed, &dashes) {
        return Err(String::from_str("SKILL.md must start with YAML frontmatter (---)"));
    }
    let rest = slice_chars(&trimmed, 3, trimmed.len());
    proof {
        lemma_byte_len_trim(content@);
        lemma_byte_len_suffix(trimmed@, 3);
    }
    let after = if rest.len() > 0 && rest[0] == '\n' {
        assert(rest@.drop_first() =~= rest@.subrange(1, rest.len() as int));
        proof {
            lemma_byte_len_suffix(rest@, 1);
        }
        slice_chars(&rest, 1, rest.len())
    } else if rest.len() > 1 && rest[0] == '\r' && rest[1] == '\n' {
        proof {
            lemma_byte_len_suffix(rest@, 2);
        }
        slice_chars(&rest, 2, rest.len())
    } else {
        return Err(String::from_str("SKILL.md frontmatter: expected newline after opening ---"));
    };
    assert(after_open(trim(content@)) == Some(after@));
    assert(byte_len(after@) <= usize::MAX);
    let after_str = string_of(&after);
    let close = match find_closing_fence(after_str.as_str()) {
        Some(c) => c,
        None => {
            return Err(String::from_str("SKILL.md frontmatter missing closing ---"));
        },
    };
    let ghost m = fence_start(after@).unwrap();
    proof {
        lemma_fence_start_bound(after@);
    }
    let cut = match char_index_of_byte(&after, close) {
        Some(j) => j,
        None => {
            assert(byte_len(after@.subrange(0, m)) == close);
            return Err(String::new());
        },
    };
    proof {
        if cut < m {
            lemma_byte_len_mono(after@, cut as int, m);
        } else if m < cut {
            lemma_byte_len_mono(after@, m, cut as int);
        }
    }
    let fm = string_of(&slice_chars(&after, 0, cut));
    assert(frontmatter_text(after@) == Some(fm@));
    let name = match extract_field(fm.as_str(), "name") {
        Some(n) => n,
        None => {
            return Err(String::from_str("SKILL.md missing required 'name' field in frontmatter"));
        },
    };
    let description = match extract_field(fm.as_str(), "description") {
        Some(d) => d,
        None => {
            return Err(
                String::from_str("SKILL.md missing required 'description' field in frontmatter"),
            );
        },
    };
    let version = extract_field(fm.as_str(), "version");
    Ok(SkillFrontmatter { name, description, version })
}

// ---------------------------------------------------------------------------
// Includes files
// ---------------------------------------------------------------------------

/// The entries of an includes file with lines `ls`: each line trimmed, blank
/// lines and `#` comments left out.
pub open spec fn include_entries(ls: Seq<Seq<char>>) -> Seq<Seq<char>>
    decreases ls.len(),
{
    if ls.len() == 0 {
        seq![]
    } else {
        let rest = include_entries(ls.drop_last());
        let t = trim(ls.last());
        if t.len() > 0 && t[0] != '#' {
            rest.push(t)
        } else {
            rest
        }
    }
}

pub open spec fn string_views(v: Seq<String>) -> Seq<Seq<char>> {
    v.map_values(|s: String| s@)
}

/// The sources listed in an includes file: one per line, `#` comments and
/// blank lines ignored.
pub fn parse_includes(content: &str) -> (r: Vec<String>)
    ensures
        string_views(r@) == include_entries(lines(content@)),
        string_views(r@) == lines(content@).map_values(|l: Seq<char>| trim(l)).filter(
            |t: Seq<char>| t.len() > 0 && t[0] != '#',
        ),
{
    proof {
        lemma_include_entries_filter(lines(content@));
    }
    let text = chars_of(content);
    let ls = lines_of(&text);
    let ghost sl = lines(text@);
    assert(ls@.len() == sl.len());
    let mut out: Vec<String> = Vec::new();
    let mut i: usize = 0;
    assert(sl.subrange(0, 0) =~= Seq::<Seq<char>>::empty());
    while i < ls.len()
        invariant
            i <= ls.len(),
            views(ls@) == sl,
            string_views(out@) == include_entries(sl.subrange(0, i as int)),
        decreases ls.len() - i,
    {
        assert(ls@[i as int]@ == sl[i as int]);
        assert(sl.subrange(0, i + 1).drop_last() =~= sl.subrange(0, i as int));
        let t = trim_of(&ls[i]);
        if t.len() > 0 && t[0] != '#' {
            let ghost before = out@;
            out.push(string_of(&t));
            assert(string_views(out@) =~= string_views(before).push(t@));
        }
        i = i + 1;
    }
    assert(sl.subrange(0, ls.len() as int) =~= sl);
    out
}

// ---------------------------------------------------------------------------
// Ordering skills by name
// ---------------------------------------------------------------------------

/// `a` comes before `b` or equals it, comparing character by character
/// (the order of `str` and `String`, since UTF-8 keeps code point order).
pub open spec fn chars_le(a: Seq<char>, b: Seq<char>) -> bool
    decreases a.len(),
{
    if a.len() == 0 {
        true
    } else if b.len() == 0 {
        false
    } else if a[0] != b[0] {
        (a[0] as int) < (b[0] as int)
    } else {
        chars_le(a.drop_first(), b.drop_first())
    }
}

/// `chars_le` is reflexive.
pub proof fn lemma_chars_le_refl(a: Seq<char>)
    ensures
        chars_le(a, a),
    decreases a.len(),
{
    if a.len() > 0 {
        lemma_chars_le_refl(a.drop_first());
    }
}

/// `chars_le` is total.
pub proof fn lemma_chars_le_total(a: Seq<char>, b: Seq<char>)
    ensures
        chars_le(a, b) || chars_le(b, a),
    decreases a.len(),
{
    if a.len() > 0 && b.len() > 0 && a[0] == b[0] {
        lemma_chars_le_total(a.drop_first(), b.drop_first());
    } else if a.len() > 0 && b.len() > 0 {
        assert((a[0] as int) != (b[0] as int));
    }
}

/// `chars_le` is antisymmetric.
pub proof fn lemma_chars_le_antisym(a: Seq<char>, b: Seq<char>)
    requires
        chars_le(a, b),
        chars_le(b, a),
    ensures
        a == b,
    decreases a.len(),
{
    if a.len() > 0 && b.len() > 0 {
        if a[0] == b[0] {
            lemma_chars_le_antisym(a.drop_first(), b.drop_first());
            assert(a =~= seq![a[0]] + a.drop_first());
            assert(b =~= seq![b[0]] + b.drop_first());
        }
    } else {
        assert(a.len() == 0 && b.len() == 0);
        assert(a =~= b);
    }
}

/// `chars_le` is transitive.
pub proof fn lemma_chars_le_trans(a: Seq<char>, b: Seq<char>, c: Seq<char>)
    requires
        chars_le(a, b),
        chars_le(b, c),
    ensures
        chars_le(a, c),
    decreases a.len(),
{
    if a.len() > 0 && b.len() > 0 && c.len() > 0 {
        if a[0] == b[0] && b[0] == c[0] {
            lemma_chars_le_trans(a.drop_first(), b.drop_first(), c.drop_first());
        }
    }
}

fn chars_le_exec(a: &Vec<char>, b: &Vec<char>) -> (r: bool)
    ensures
        r == chars_le(a@, b@),
{
    let mut i: usize = 0;
    assert(a@.subrange(0, a.len() as int) =~= a@);
    assert(b@.subrange(0, b.len() as int) =~= b@);
    while i < a.len() && i < b.len() && a[i] == b[i]
        invariant
            i <= a.len(),
            i <= b.len(),
            chars_le(a@, b@) == chars_le(
                a@.subrange(i as int, a.len() as int),
                b@.subrange(i as int, b.len() as int),
            ),
        decreases a.len() - i,
    {
        assert(a@.subrange(i as int, a.len() as int).drop_first() =~= a@.subrange(
            i + 1,
            a.len() as int,
        ));
        assert(b@.subrange(i as int, b.len() as int).drop_first() =~= b@.subrange(
            i + 1,
            b.len() as int,
        ));
        i = i + 1;
    }
    if i == a.len() {
        true
    } else if i == b.len() {
        false
    } else {
        a[i] < b[i]
    }
}

/// `names` listed in the order of `order` is sorted, and equal names keep
/// their original order (a stable sort).
pub open spec fn sorted_stably(names: Seq<Seq<char>>, order: Seq<usize>) -> bool {
    forall|a: int, b: int|
        0 <= a < b < order.len() ==> {
            &&& chars_le(#[trigger] names[order[a] as int], #[trigger] names[order[b] as int])
            &&& (names[order[a] as int] == names[order[b] as int] ==> order[a] < order[b])
        }
}

/// `order` lists each of `0..n` exactly once.
pub open spec fn is_permutation(order: Seq<usize>, n: nat) -> bool {
    &&& order.len() == n
    &&& forall|k: int| 0 <= k < order.len() ==> #[trigger] order[k] < n
    &&& forall|a: int, b: int| 0 <= a < b < order.len() ==> #[trigger] order[a] != #[trigger] order[b]
}

pub open spec fn skill_names(skills: Seq<SkillFrontmatter>) -> Seq<Seq<char>> {
    skills.map_values(|s: SkillFrontmatter| s.name@)
}

/// The order in which to list `skills`: by name, ties kept in their given
/// order (what a stable sort by name does).
pub fn name_order(skills: &Vec<SkillFrontmatter>) -> (order: Vec<usize>)
    ensures
        is_permutation(order@, skills.len() as nat),
        sorted_stably(skill_names(skills@), order@),
{
    let ghost names = skill_names(skills@);
    let mut keys: Vec<Vec<char>> = Vec::new();
    let mut k: usize = 0;
    while k < skills.len()
        invariant
            k <= skills.len(),
            names == skill_names(skills@),
            keys.len() == k,
            forall|j: int| 0 <= j < k ==> #[trigger] keys@[j]@ == names[j],
        decreases skills.len() - k,
    {
        keys.push(chars_of(skills[k].name.as_str()));
        k = k + 1;
    }
    let mut order: Vec<usize> = Vec::new();
    let mut i: usize = 0;
    while i < skills.len()
        invariant
            i <= skills.len(),
            keys.len() == skills.len(),
            names == skill_names(skills@),
            forall|j: int| 0 <= j < skills.len() ==> #[trigger] keys@[j]@ == names[j],
            is_permutation(order@, i as nat),
            sorted_stably(names, order@),
        decreases skills.len() - i,
    {
        let mut p: usize = 0;
        while p < order.len() && chars_le_exec(&keys[order[p]], &keys[i])
            invariant
                p <= order.len(),
                i < skills.len(),
                keys.len() == skills.len(),
                forall|j: int| 0 <= j < skills.len() ==> #[trigger] keys@[j]@ == names[j],
                is_permutation(order@, i as nat),
                forall|k: int| 0 <= k < p ==> chars_le(#[trigger] names[order@[k] as int], names[i as int]),
            decreases order.len() - p,
        {
            p = p + 1;
        }
        let ghost old_order = order@;
        proof {
            if p < order.len() {
                let np = names[old_order[p as int] as int];
                let ni = names[i as int];
                assert(keys@[old_order[p as int] as int]@ == np);
                assert(!chars_le(np, ni));
                lemma_chars_le_total(np, ni);
                if np == ni {
                    lemma_chars_le_refl(ni);
                }
            }
        }
        order.insert(p, i);
        proof {
            let o = order@;
            assert(o =~= old_order.insert(p as int, i));
            assert forall|a: int, b: int| 0 <= a < b < o.len() implies #[trigger] o[a] != #[trigger] o[b] by {
                if a < p && b > p {
                    assert(o[b] == old_order[b - 1]);
                } else if a > p {
                    assert(o[a] == old_order[a - 1] && o[b] == old_order[b - 1]);
                }
            }
            assert forall|a: int, b: int| 0 <= a < b < o.len() implies {
                &&& chars_le(#[trigger] names[o[a] as int], #[trigger] names[o[b] as int])
                &&& (names[o[a] as int] == names[o[b] as int] ==> o[a] < o[b])
            } by {
                let ni = names[i as int];
                if b < p {
                } else if b == p {
                    assert(o[a] == old_order[a]);
                } else if a == p {
                    let np = names[old_order[p as int] as int];
                    let nb = names[old_order[b - 1] as int];
                    assert(o[b] == old_order[b - 1]);
                    if b - 1 > p {
                        assert(chars_le(np, nb));
                    } else {
                        lemma_chars_le_refl(np);
                    }
                    lemma_chars_le_trans(ni, np, nb);
                    if ni == nb {
                        lemma_chars_le_antisym(np, ni);
                    }
                } else if a < p {
                    assert(o[a] == old_order[a] && o[b] == old_order[b - 1]);
                } else {
                    assert(o[a] == old_order[a - 1] && o[b] == old_order[b - 1]);
                }
            }
        }
        i = i + 1;
    }
    order
}


// ---------------------------------------------------------------------------
// Laws
// ---------------------------------------------------------------------------

proof fn lemma_field_from_nonempty(ls: Seq<Seq<char>>, key: Seq<char>, i: int)
    ensures
        field_from(ls, key, i) matches Some(v) ==> v.len() > 0,
    decreases ls.len() - i,
{
    if 0 <= i < ls.len() {
        lemma_field_from_nonempty(ls, key, i + 1);
    }
}

/// A field that is found is never empty.
pub proof fn lemma_extracted_field_nonempty(fm: Seq<char>, key: Seq<char>)
    ensures
        spec_extract_field(fm, key) matches Some(v) ==> v.len() > 0,
{
    lemma_field_from_nonempty(lines(fm), key, 0);
}

/// A parsed frontmatter has a non-empty name and description, and a version
/// that is non-empty where there is one.
pub proof fn lemma_parsed_fields_nonempty(content: Seq<char>)
    ensures
        spec_parse_frontmatter(content) matches Ok(v) ==> {
            &&& v.name.len() > 0
            &&& v.description.len() > 0
            &&& (v.version matches Some(ver) ==> ver.len() > 0)
        },
{
    let t = trim(content);
    if let Some(a) = after_open(t) {
        if let Some(fm) = frontmatter_text(a) {
            lemma_extracted_field_nonempty(fm, "name"@);
            lemma_extracted_field_nonempty(fm, "description"@);
            lemma_extracted_field_nonempty(fm, "version"@);
        }
    }
}

proof fn lemma_include_entries_shape(ls: Seq<Seq<char>>)
    ensures
        forall|k: int|
            0 <= k < include_entries(ls).len() ==> {
                &&& (#[trigger] include_entries(ls)[k]).len() > 0
                &&& include_entries(ls)[k][0] != '#'
                &&& exists|j: int| 0 <= j < ls.len() && include_entries(ls)[k] == trim(ls[j])
            },
    decreases ls.len(),
{
    if ls.len() > 0 {
        lemma_include_entries_shape(ls.drop_last());
        let rest = include_entries(ls.drop_last());
        assert forall|k: int| 0 <= k < include_entries(ls).len() implies {
            &&& (#[trigger] include_entries(ls)[k]).len() > 0
            &&& include_entries(ls)[k][0] != '#'
            &&& exists|j: int| 0 <= j < ls.len() && include_entries(ls)[k] == trim(ls[j])
        } by {
            if k < rest.len() {
                let j = choose|j: int| 0 <= j < ls.drop_last().len() && rest[k] == trim(ls.drop_last()[j]);
                assert(ls[j] == ls.drop_last()[j]);
            } else {
                assert(include_entries(ls)[k] == trim(ls[ls.len() - 1]));
            }
        }
    }
}

/// Every entry read from an includes file is the trimmed text of one of its
/// lines, neither blank nor a `#` comment.
pub proof fn lemma_include_entries(content: Seq<char>)
    ensures
        forall|k: int|
            0 <= k < include_entries(lines(content)).len() ==> {
                let e = #[trigger] include_entries(lines(content))[k];
                &&& e.len() > 0
                &&& e[0] != '#'
                &&& exists|j: int| 0 <= j < lines(content).len() && e == trim(lines(content)[j])
            },
{
    lemma_include_entries_shape(lines(content));
}


proof fn lemma_first_line(z: Seq<char>)
    requires
        z.len() > 0,
    ensures
        lines(z).len() > 0,
        char_pos(z, '\n') < z.len() ==> lines(z)[0] == strip_cr(
            z.subrange(0, char_pos(z, '\n') as int),
        ),
        char_pos(z, '\n') >= z.len() ==> lines(z)[0] == z,
{
}

/// Where `h` is whole lines, none of them a fence, and the first line of `z`
/// is a fence, the fence of `h + z` starts right after `h`.
proof fn lemma_fence_start_concat(h: Seq<char>, z: Seq<char>)
    requires
        whole_lines(h),
        forall|k: int| 0 <= k < lines(h).len() ==> trim(#[trigger] lines(h)[k]) != fence(),
        lines(z).len() > 0,
        trim(lines(z)[0]) == fence(),
    ensures
        fence_start(h + z) == Some(h.len() as int),
    decreases h.len(),
{
    if h.len() == 0 {
        assert(h + z =~= z);
        assert(z.len() > 0);
        lemma_first_line(z);
    } else {
        let s = h + z;
        let k = char_pos(h, '\n');
        lemma_char_pos_bound(h, '\n');
        assert(h[h.len() - 1] == '\n');
        assert(k < h.len());
        assert forall|j: int| 0 <= j < k implies s[j] != '\n' by {
            assert(s[j] == h[j]);
        }
        lemma_char_pos(s, '\n', k as int);
        assert(s.subrange(0, k as int) =~= h.subrange(0, k as int));
        let rest = h.subrange(k + 1int, h.len() as int);
        assert(s.subrange(k + 1int, s.len() as int) =~= rest + z);
        assert(lines(h) == seq![strip_cr(h.subrange(0, k as int))] + lines(rest));
        assert(lines(h)[0] == strip_cr(h.subrange(0, k as int)));
        assert(whole_lines(rest)) by {
            if rest.len() > 0 {
                assert(rest.last() == h.last());
            }
        }
        assert forall|j: int| 0 <= j < lines(rest).len() implies trim(#[trigger] lines(rest)[j])
            != fence() by {
            assert(lines(rest)[j] == lines(h)[j + 1]);
        }
        lemma_fence_start_concat(rest, z);
    }
}

/// `fence_start` finds the first line whose trimmed text is `---`: the text
/// before it is whole lines, none of them such a line, and the line that
/// starts there is one; with no such line, no line of the text is one.
pub proof fn lemma_fence_start_is_first_fence_line(s: Seq<char>)
    ensures
        fence_start(s) matches Some(m) ==> {
            &&& 0 <= m < s.len()
            &&& whole_lines(s.subrange(0, m))
            &&& forall|k: int|
                0 <= k < lines(s.subrange(0, m)).len() ==> trim(
                    #[trigger] lines(s.subrange(0, m))[k],
                ) != fence()
            &&& lines(s.subrange(m, s.len() as int)).len() > 0
            &&& trim(lines(s.subrange(m, s.len() as int))[0]) == fence()
        },
        fence_start(s) is None ==> forall|k: int|
            0 <= k < lines(s).len() ==> trim(#[trigger] lines(s)[k]) != fence(),
    decreases s.len(),
{
    if s.len() > 0 {
        let k = char_pos(s, '\n');
        lemma_char_pos_bound(s, '\n');
        lemma_first_line(s);
        assert(s.subrange(0, 0) =~= Seq::<char>::empty());
        assert(lines(Seq::<char>::empty()) == Seq::<Seq<char>>::empty());
        assert(s.subrange(0, s.len() as int) =~= s);
        if k < s.len() {
            let l0 = strip_cr(s.subrange(0, k as int));
            let r = s.subrange(k + 1int, s.len() as int);
            assert(lines(s) == seq![l0] + lines(r));
            if trim(l0) != fence() {
                lemma_fence_start_is_first_fence_line(r);
                if let Some(mr) = fence_start(r) {
                    let m = mr + k + 1;
                    let head = s.subrange(0, k as int);
                    assert(!head.contains('\n')) by {
                        assert forall|j: int| 0 <= j < head.len() implies head[j] != '\n' by {
                            assert(head[j] == s[j]);
                        }
                    }
                    lemma_one_line(head);
                    let first = s.subrange(0, k + 1int);
                    assert(first =~= head + seq!['\n']);
                    assert(whole_lines(first));
                    let tail = r.subrange(0, mr);
                    assert(s.subrange(0, m) =~= first + tail);
                    lemma_lines_concat(first, tail);
                    assert(lines(s.subrange(0, m)) == seq![l0] + lines(tail));
                    assert forall|j: int| 0 <= j < lines(s.subrange(0, m)).len() implies trim(
                        #[trigger] lines(s.subrange(0, m))[j],
                    ) != fence() by {
                        if j > 0 {
                            assert(lines(s.subrange(0, m))[j] == lines(tail)[j - 1]);
                        }
                    }
                    assert(whole_lines(s.subrange(0, m))) by {
                        if mr > 0 {
                            assert(s.subrange(0, m).last() == tail.last());
                        } else {
                            assert(s.subrange(0, m).last() == s[k as int]);
                        }
                    }
                    assert(s.subrange(m, s.len() as int) =~= r.subrange(mr, r.len() as int));
                } else {
                    assert forall|j: int| 0 <= j < lines(s).len() implies trim(
                        #[trigger] lines(s)[j],
                    ) != fence() by {
                        if j > 0 {
                            assert(lines(s)[j] == lines(r)[j - 1]);
                        }
                    }
                }
            }
        } else {
            lemma_char_pos(s, '\n', s.len() as int);
            assert(lines(s) =~= seq![s]);
        }
    }
}

/// What is left of the closing line `f` and the body `b` once the
/// document is trimmed.
pub open spec fn fenced_rest(f: Seq<char>, b: Seq<char>) -> Seq<char> {
    if trim_end(seq!['\n'] + b).len() > 0 {
        f + trim_end(seq!['\n'] + b)
    } else {
        trim_end(f)
    }
}

proof fn lemma_fence_line_nonblank(f: Seq<char>)
    requires
        trim(f) == fence(),
    ensures
        !all_ws(f),
        trim_end(f).len() > 0,
{
    assert(('-' as u32) == 0x2D);
    assert(trim(f).len() == 3);
    if all_ws(f) {
        lemma_trim_start_all_ws(f);
        lemma_trim_end_prefix(trim_start(f));
    }
    if trim_end(f).len() == 0 {
        lemma_trim_end_prefix(f);
        assert(f.subrange(0, f.len() as int) =~= f);
    }
}

proof fn lemma_trimmed_document(h: Seq<char>, f: Seq<char>, b: Seq<char>)
    requires
        trim(f) == fence(),
    ensures
        trim(fence() + seq!['\n'] + h + f + seq!['\n'] + b) == fence() + seq!['\n'] + h
            + fenced_rest(f, b),
{
    let nl = seq!['\n'];
    let c = fence() + nl + h + f + nl + b;
    lemma_fence_line_nonblank(f);
    assert(c[0] == '-');
    assert(('-' as u32) == 0x2D);
    assert(trim_start(c) == c);
    let pre = fence() + nl + h;
    let tail = f + nl + b;
    assert(c =~= pre + tail);
    assert(tail =~= f + (nl + b));
    lemma_trim_end_concat(f, nl + b);
    lemma_trim_end_concat(pre, tail);
}

proof fn lemma_rest_first_line(f: Seq<char>, b: Seq<char>)
    requires
        !f.contains('\n'),
        trim(f) == fence(),
    ensures
        lines(fenced_rest(f, b)).len() > 0,
        trim(lines(fenced_rest(f, b))[0]) == fence(),
        byte_len(fenced_rest(f, b)) <= byte_len(f + seq!['\n'] + b),
{
    let nl = seq!['\n'];
    let z = fenced_rest(f, b);
    lemma_fence_line_nonblank(f);
    assert(('\n' as u32) == 10);
    assert(all_ws(nl));
    if trim_end(nl + b).len() > 0 {
        lemma_trim_end_concat(nl, b);
        lemma_trim_end_all_ws(nl);
        let y = if trim_end(b).len() > 0 {
            trim_end(b)
        } else {
            Seq::<char>::empty()
        };
        assert(z =~= f + nl + y);
        lemma_lines_of_line(f, y);
        let l0 = strip_cr(f);
        if f.len() > 0 && f.last() == '\r' {
            assert(f =~= l0 + seq!['\r']);
            assert(('\r' as u32) == 13);
            assert(all_ws(seq!['\r']));
            lemma_trim_ws_suffix(l0, seq!['\r']);
        }
        lemma_trim_end_prefix(b);
        assert(byte_len(y) <= byte_len(b)) by {
            if y.len() == 0 {
                assert(y =~= Seq::<char>::empty());
            } else if y.len() < b.len() {
                assert(b.subrange(0, b.len() as int) =~= b);
                lemma_byte_len_mono(b, y.len() as int, b.len() as int);
            } else {
                assert(b.subrange(0, b.len() as int) =~= b);
            }
        }
        lemma_byte_len_concat(f + nl, b);
        lemma_byte_len_concat(f + nl, y);
    } else {
        let e = z.len() as int;
        lemma_trim_end_prefix(f);
        assert(z == f.subrange(0, e));
        assert forall|j: int| 0 <= j < z.len() implies z[j] != '\n' by {
            assert(z[j] == f[j]);
        }
        lemma_lines_of_line(z, Seq::<char>::empty());
        let w = f.subrange(e, f.len() as int);
        assert(f =~= z + w);
        lemma_trim_ws_suffix(z, w);
        lemma_byte_len_concat(f, nl + b);
        lemma_byte_len_concat(z, w);
        assert(f + nl + b =~= f + (nl + b));
    }
}

proof fn lemma_after_open_of(h: Seq<char>, z: Seq<char>)
    ensures
        starts_with(fence() + seq!['\n'] + h + z, fence()),
        after_open(fence() + seq!['\n'] + h + z) == Some(h + z),
{
    let t = fence() + seq!['\n'] + h + z;
    assert(t.subrange(0, 3) =~= fence());
    assert(t[3] == '\n');
    assert(t.subrange(3, t.len() as int).drop_first() =~= h + z);
}

/// The text after the opening fence, once trimmed, for a document
/// `---\n{h}{f}\n{b}` whose frontmatter `h` is closed by the line `f`.
proof fn lemma_fenced_after_open(h: Seq<char>, f: Seq<char>, b: Seq<char>)
    requires
        whole_lines(h),
        !f.contains('\n'),
        trim(f) == fence(),
    ensures
        starts_with(trim(fence() + seq!['\n'] + h + f + seq!['\n'] + b), fence()),
        after_open(trim(fence() + seq!['\n'] + h + f + seq!['\n'] + b)) == Some(
            h + fenced_rest(f, b),
        ),
        lines(h + fenced_rest(f, b)) == lines(h) + lines(fenced_rest(f, b)),
        lines(fenced_rest(f, b)).len() > 0,
        trim(lines(fenced_rest(f, b))[0]) == fence(),
{
    let z = fenced_rest(f, b);
    lemma_trimmed_document(h, f, b);
    lemma_rest_first_line(f, b);
    lemma_after_open_of(h, z);
    lemma_lines_concat(h, z);
}


/// A value written plainly: non-empty, on one line, without surrounding
/// whitespace, not opening with a quote, and not a block marker.
pub open spec fn is_plain_value(v: Seq<char>) -> bool {
    &&& v.len() > 0
    &&& !v.contains('\n')
    &&& !is_ws(v[0])
    &&& !is_ws(v.last())
    &&& v[0] != '"'
    &&& v[0] != '\''
    &&& v != folded_marker()
    &&& v != literal_marker()
}

/// The document `---\nname: {name}\ndescription: {description}\n---\n`.
pub open spec fn simple_document(name: Seq<char>, description: Seq<char>) -> Seq<char> {
    "---\nname: "@ + name + "\ndescription: "@ + description + "\n---\n"@
}

proof fn lemma_one_line(l: Seq<char>)
    requires
        !l.contains('\n'),
    ensures
        lines(l + seq!['\n']) == seq![strip_cr(l)],
{
    let s = l + seq!['\n'];
    assert forall|j: int| 0 <= j < l.len() implies s[j] != '\n' by {
        assert(s[j] == l[j]);
    }
    lemma_char_pos(s, '\n', l.len() as int);
    assert(s.subrange(0, l.len() as int) =~= l);
    assert(s.subrange(l.len() + 1int, s.len() as int) =~= Seq::<char>::empty());
    assert(lines(Seq::<char>::empty()) == Seq::<Seq<char>>::empty());
    assert(lines(s) =~= seq![strip_cr(l)]);
}

/// The line `{key}: {value}` names `key` with the value `value`.
proof fn lemma_key_line(key: Seq<char>, value: Seq<char>)
    requires
        key.len() > 0,
        !is_ws(key[0]),
        !key.contains('\n'),
        value.len() > 0,
        !value.contains('\n'),
        !is_ws(value[0]),
        !is_ws(value.last()),
    ensures
        key_value(key + seq![':', ' '] + value, key) == Some(value),
        !(key + seq![':', ' '] + value).contains('\n'),
        strip_cr(key + seq![':', ' '] + value) == key + seq![':', ' '] + value,
{
    let line = key + seq![':', ' '] + value;
    assert(line[0] == key[0]);
    assert(line.last() == value.last());
    lemma_trim_ends(line);
    assert(line.subrange(0, key.len() as int) =~= key);
    let after = line.subrange(key.len() as int, line.len() as int);
    assert(after =~= seq![':', ' '] + value);
    assert((':' as u32) == 0x3A && (' ' as u32) == 0x20 && ('\r' as u32) == 13 && ('\n' as u32) == 10);
    assert(trim_start(after) == after);
    assert(after.drop_first() =~= seq![' '] + value);
    assert((seq![' '] + value).drop_first() =~= value);
    assert(trim_start(seq![' '] + value) == trim_start(value));
    lemma_trim_ends(value);
    assert(!line.contains('\n')) by {
        if line.contains('\n') {
            let i = choose|i: int| 0 <= i < line.len() && line[i] == '\n';
            if i < key.len() {
                assert(line[i] == key[i]);
            } else if i >= key.len() + 2 {
                assert(line[i] == value[i - key.len() - 2]);
            }
        }
    }
}


proof fn lemma_other_key(line: Seq<char>, key: Seq<char>)
    requires
        line.len() > 0,
        key.len() > 0,
        trim(line) == line,
        line[0] != key[0],
    ensures
        key_value(line, key) is None,
{
    if starts_with(line, key) {
        assert(line.subrange(0, key.len() as int)[0] == line[0]);
    }
}

pub open spec fn key_line(key: Seq<char>, value: Seq<char>) -> Seq<char> {
    key + seq![':', ' '] + value
}

pub open spec fn simple_frontmatter(name: Seq<char>, description: Seq<char>) -> Seq<char> {
    key_line("name"@, name) + seq!['\n'] + key_line("description"@, description) + seq!['\n']
}

proof fn lemma_simple_lines(name: Seq<char>, description: Seq<char>)
    requires
        is_plain_value(name),
        is_plain_value(description),
    ensures
        ({
            let h = simple_frontmatter(name, description);
            let l1 = key_line("name"@, name);
            let l2 = key_line("description"@, description);
            &&& whole_lines(h)
            &&& lines(h) == seq![l1, l2]
            &&& trim(l1) == l1 && trim(l2) == l2
            &&& l1[0] == 'n' && l2[0] == 'd'
            &&& trim(l1) != fence() && trim(l2) != fence()
            &&& key_value(l1, "name"@) == Some(name)
            &&& key_value(l2, "description"@) == Some(description)
            &&& byte_len(h) == byte_len(l1) + 1 + byte_len(l2) + 1
        }),
{
    reveal_strlit("name");
    reveal_strlit("description");
    let nl = seq!['\n'];
    let kn = "name"@;
    let kd = "description"@;
    let l1 = key_line(kn, name);
    let l2 = key_line(kd, description);
    let h = simple_frontmatter(name, description);
    assert(('n' as u32) == 0x6E && ('d' as u32) == 0x64 && ('-' as u32) == 0x2D && ('\n' as u32)
        == 10);
    assert(!kn.contains('\n') && !kd.contains('\n'));
    lemma_key_line(kn, name);
    lemma_key_line(kd, description);
    assert(h =~= (l1 + nl) + (l2 + nl));
    assert(whole_lines(l1 + nl));
    lemma_lines_concat(l1 + nl, l2 + nl);
    lemma_one_line(l1);
    lemma_one_line(l2);
    assert(lines(h) =~= seq![l1, l2]);
    assert(l1[0] == 'n' && l2[0] == 'd');
    assert(l1.last() == name.last() && l2.last() == description.last());
    lemma_trim_ends(l1);
    lemma_trim_ends(l2);
    assert(fence()[0] == '-');
    assert(byte_len(nl) == 1) by {
        assert(nl.drop_last() =~= Seq::<char>::empty());
        assert(byte_len(Seq::<char>::empty()) == 0);
    }
    assert(h =~= l1 + nl + l2 + nl);
    lemma_byte_len_concat(l1 + nl + l2, nl);
    lemma_byte_len_concat(l1 + nl, l2);
    lemma_byte_len_concat(l1, nl);
}

proof fn lemma_simple_fields(name: Seq<char>, description: Seq<char>)
    requires
        is_plain_value(name),
        is_plain_value(description),
    ensures
        spec_extract_field(simple_frontmatter(name, description), "name"@) == Some(name),
        spec_extract_field(simple_frontmatter(name, description), "description"@) == Some(
            description,
        ),
        spec_extract_field(simple_frontmatter(name, description), "version"@) is None,
{
    reveal_strlit("name");
    reveal_strlit("description");
    reveal_strlit("version");
    lemma_simple_lines(name, description);
    let l1 = key_line("name"@, name);
    let l2 = key_line("description"@, description);
    let ls = seq![l1, l2];
    assert(('n' as u32) == 0x6E && ('d' as u32) == 0x64 && ('v' as u32) == 0x76);
    assert(field_from(ls, "name"@, 0) == Some(name));
    lemma_other_key(l1, "description"@);
    assert(field_from(ls, "description"@, 1) == Some(description));
    lemma_other_key(l1, "version"@);
    lemma_other_key(l2, "version"@);
    assert(field_from(ls, "version"@, 2) is None);
    assert(field_from(ls, "version"@, 1) is None);
}

proof fn lemma_simple_cut(name: Seq<char>, description: Seq<char>)
    requires
        is_plain_value(name),
        is_plain_value(description),
    ensures
        ({
            let h = simple_frontmatter(name, description);
            let c = fence() + seq!['\n'] + h + fence() + seq!['\n'] + Seq::<char>::empty();
            let a = h + fenced_rest(fence(), Seq::<char>::empty());
            &&& starts_with(trim(c), fence())
            &&& after_open(trim(c)) == Some(a)
            &&& frontmatter_text(a) == Some(h)
        }),
{
    lemma_simple_lines(name, description);
    let h = simple_frontmatter(name, description);
    let ls = lines(h);
    let f = fence();
    assert(('-' as u32) == 0x2D && ('\n' as u32) == 10);
    assert(!f.contains('\n'));
    lemma_trim_ends(f);
    lemma_fenced_after_open(h, f, Seq::<char>::empty());
    let z = fenced_rest(f, Seq::<char>::empty());
    assert forall|k: int| 0 <= k < ls.len() implies trim(#[trigger] ls[k]) != fence() by {
        assert(k == 0 || k == 1);
    }
    lemma_fence_start_concat(h, z);
    assert((h + z).subrange(0, h.len() as int) =~= h);
}

/// `---\nname: {name}\ndescription: {description}\n---\n` parses to that
/// name and description, with no version, for plainly written values.
pub proof fn lemma_parse_simple_document(name: Seq<char>, description: Seq<char>)
    requires
        is_plain_value(name),
        is_plain_value(description),
    ensures
        spec_parse_frontmatter(simple_document(name, description)) == Ok::<
            FrontmatterView,
            Seq<char>,
        >(FrontmatterView { name, description, version: None }),
{
    reveal_strlit("---\nname: ");
    reveal_strlit("\ndescription: ");
    reveal_strlit("\n---\n");
    reveal_strlit("name");
    reveal_strlit("description");
    let h = simple_frontmatter(name, description);
    let c = fence() + seq!['\n'] + h + fence() + seq!['\n'] + Seq::<char>::empty();
    assert(simple_document(name, description) =~= c);
    lemma_simple_cut(name, description);
    lemma_simple_fields(name, description);
}

/// Only the text up to the closing fence counts: whatever follows the line
/// that closes the frontmatter leaves the result unchanged (`---` in the
/// body does not close it again).
pub proof fn lemma_body_after_fence_ignored(
    h: Seq<char>,
    f: Seq<char>,
    b1: Seq<char>,
    b2: Seq<char>,
)
    requires
        whole_lines(h),
        forall|k: int| 0 <= k < lines(h).len() ==> trim(#[trigger] lines(h)[k]) != fence(),
        !f.contains('\n'),
        trim(f) == fence(),
    ensures
        spec_parse_frontmatter(fence() + seq!['\n'] + h + f + seq!['\n'] + b1)
            == spec_parse_frontmatter(fence() + seq!['\n'] + h + f + seq!['\n'] + b2),
{
    lemma_fenced_after_open(h, f, b1);
    lemma_fenced_after_open(h, f, b2);
    let z1 = fenced_rest(f, b1);
    let z2 = fenced_rest(f, b2);
    lemma_fence_start_concat(h, z1);
    lemma_fence_start_concat(h, z2);
    assert((h + z1).subrange(0, h.len() as int) =~= h);
    assert((h + z2).subrange(0, h.len() as int) =~= h);
}


// ---------------------------------------------------------------------------
// Laws on blocks, includes files and the name order
// ---------------------------------------------------------------------------

pub open spec fn is_indented(l: Seq<char>) -> bool {
    l.len() > 0 && (l[0] == ' ' || l[0] == '\t')
}

proof fn lemma_block_lines_run(ls: Seq<Seq<char>>, start: int, body: Seq<Seq<char>>, i: int)
    requires
        0 <= start,
        0 <= i <= body.len(),
        start + body.len() <= ls.len(),
        forall|k: int| 0 <= k < body.len() ==> ls[start + k] == #[trigger] body[k],
        forall|k: int| 0 <= k < body.len() ==> is_indented(#[trigger] body[k]),
        start + body.len() < ls.len() ==> !is_indented(ls[start + body.len()]),
    ensures
        block_lines(ls, start + i) == body.subrange(i, body.len() as int).map_values(
            |l: Seq<char>| trim(l),
        ),
    decreases body.len() - i,
{
    if i < body.len() {
        lemma_block_lines_run(ls, start, body, i + 1);
        assert(ls[start + i] == body[i]);
        assert(body.subrange(i, body.len() as int).map_values(|l: Seq<char>| trim(l)) =~= seq![
            trim(body[i]),
        ] + body.subrange(i + 1, body.len() as int).map_values(|l: Seq<char>| trim(l)));
    } else {
        assert(body.subrange(i, body.len() as int).map_values(|l: Seq<char>| trim(l))
            =~= Seq::<Seq<char>>::empty());
    }
}

/// A `>` or `|` value takes every indented line that follows it, whatever
/// those lines hold, up to the first line that is not indented: their trimmed
/// texts joined by spaces (`>`) or line breaks (`|`); nothing when that comes
/// out empty.
pub proof fn lemma_block_value(
    key: Seq<char>,
    marker: Seq<char>,
    body: Seq<Seq<char>>,
    tail: Seq<Seq<char>>,
)
    requires
        key.len() > 0,
        !is_ws(key[0]),
        !key.contains('\n'),
        marker == folded_marker() || marker == literal_marker(),
        forall|k: int| 0 <= k < body.len() ==> is_indented(#[trigger] body[k]),
        tail.len() > 0 ==> !is_indented(tail[0]),
    ensures
        ({
            let ls = seq![key + seq![':', ' '] + marker] + body + tail;
            let sep = if marker == folded_marker() {
                seq![' ']
            } else {
                seq!['\n']
            };
            let joined = join(body.map_values(|l: Seq<char>| trim(l)), sep);
            field_from(ls, key, 0) == if joined.len() > 0 {
                Some(joined)
            } else {
                None::<Seq<char>>
            }
        }),
{
    let ls = seq![key + seq![':', ' '] + marker] + body + tail;
    assert(('>' as u32) == 0x3E && ('|' as u32) == 0x7C && ('\n' as u32) == 10);
    assert(marker.len() == 1 && !is_ws(marker[0]));
    assert(!marker.contains('\n'));
    lemma_key_line(key, marker);
    assert(ls[0] == key + seq![':', ' '] + marker);
    assert forall|k: int| 0 <= k < body.len() implies ls[1 + k] == #[trigger] body[k] by {
        assert(ls[1 + k] == body[k]);
    }
    if 1 + body.len() < ls.len() {
        assert(ls[1int + body.len()] == tail[0]);
    }
    lemma_block_lines_run(ls, 1, body, 0);
    assert(body.subrange(0, body.len() as int) =~= body);
}

/// The entries of an includes file are exactly its lines, trimmed, that are
/// neither blank nor `#` comments, in the order of the file.
pub proof fn lemma_include_entries_filter(ls: Seq<Seq<char>>)
    ensures
        include_entries(ls) == ls.map_values(|l: Seq<char>| trim(l)).filter(
            |t: Seq<char>| t.len() > 0 && t[0] != '#',
        ),
    decreases ls.len(),
{
    reveal(Seq::filter);
    let f = |l: Seq<char>| trim(l);
    let keep = |t: Seq<char>| t.len() > 0 && t[0] != '#';
    if ls.len() > 0 {
        lemma_include_entries_filter(ls.drop_last());
        let m = ls.map_values(f);
        assert(m.drop_last() =~= ls.drop_last().map_values(f));
        assert(m.last() == trim(ls.last()));
    } else {
        assert(ls.map_values(f) =~= Seq::<Seq<char>>::empty());
    }
}

/// Names are ordered by their first differing character, whatever follows it
/// and whatever their lengths.
pub proof fn lemma_chars_le_first_difference(
    p: Seq<char>,
    x: char,
    y: char,
    u: Seq<char>,
    v: Seq<char>,
)
    requires
        (x as int) < (y as int),
    ensures
        chars_le(p + seq![x] + u, p + seq![y] + v),
        !chars_le(p + seq![y] + v, p + seq![x] + u),
    decreases p.len(),
{
    let a = p + seq![x] + u;
    let b = p + seq![y] + v;
    if p.len() == 0 {
        assert(a[0] == x && b[0] == y);
    } else {
        assert(a[0] == p[0] && b[0] == p[0]);
        assert(a.drop_first() =~= p.drop_first() + seq![x] + u);
        assert(b.drop_first() =~= p.drop_first() + seq![y] + v);
        lemma_chars_le_first_difference(p.drop_first(), x, y, u, v);
    }
}

/// A name comes before every longer name that it begins.
pub proof fn lemma_chars_le_prefix(p: Seq<char>, u: Seq<char>)
    ensures
        chars_le(p, p + u),
        u.len() > 0 ==> !chars_le(p + u, p),
    decreases p.len(),
{
    if p.len() > 0 {
        assert((p + u)[0] == p[0]);
        assert((p + u).drop_first() =~= p.drop_first() + u);
        lemma_chars_le_prefix(p.drop_first(), u);
    } else {
        assert(p + u =~= u);
    }
}

/// A value in double or single quotes is read without them.
pub proof fn lemma_unquote_quoted(v: Seq<char>)
    ensures
        unquote(seq!['"'] + v + seq!['"']) == v,
        unquote(seq!['\''] + v + seq!['\'']) == v,
{
    let d = seq!['"'] + v + seq!['"'];
    let q = seq!['\''] + v + seq!['\''];
    assert(d[0] == '"' && d.last() == '"');
    assert(q[0] == '\'' && q.last() == '\'');
    assert(('"' as u32) == 0x22 && ('\'' as u32) == 0x27);
    assert(d.subrange(1, d.len() - 1) =~= v);
    assert(q.subrange(1, q.len() - 1) =~= v);
}


/// Joining puts the separator between consecutive parts, and only there.
pub proof fn lemma_join_parts(parts: Seq<Seq<char>>, x: Seq<char>, sep: Seq<char>)
    ensures
        join(seq![x], sep) == x,
        parts.len() > 0 ==> join(parts.push(x), sep) == join(parts, sep) + sep + x,
        join(Seq::<Seq<char>>::empty(), sep) == Seq::<char>::empty(),
{
    assert(seq![x].len() == 1);
    if parts.len() > 0 {
        assert(parts.push(x).drop_last() =~= parts);
    }
}

/// The frontmatter begins right after `---` and its line break (`\n` or
/// `\r\n`); any other character after `---` leaves no frontmatter.
pub proof fn lemma_after_open_line_break(a: Seq<char>, c: char)
    ensures
        after_open(fence() + seq!['\n'] + a) == Some(a),
        after_open(fence() + seq!['\r', '\n'] + a) == Some(a),
        c != '\n' && c != '\r' ==> after_open(fence() + seq![c] + a) is None,
        after_open(fence()) is None,
{
    let t1 = fence() + seq!['\n'] + a;
    assert(t1.subrange(3, t1.len() as int) =~= seq!['\n'] + a);
    assert((seq!['\n'] + a).drop_first() =~= a);
    let t2 = fence() + seq!['\r', '\n'] + a;
    assert(t2.subrange(3, t2.len() as int) =~= seq!['\r', '\n'] + a);
    assert((seq!['\r', '\n'] + a).subrange(2, a.len() + 2int) =~= a);
    let t3 = fence() + seq![c] + a;
    assert(t3.subrange(3, t3.len() as int) =~= seq![c] + a);
    assert(fence().subrange(3, 3) =~= Seq::<char>::empty());
}

proof fn lemma_field_from_tail(l: Seq<char>, rest: Seq<Seq<char>>, key: Seq<char>, i: int)
    requires
        0 <= i,
    ensures
        field_from(seq![l] + rest, key, i + 1) == field_from(rest, key, i),
    decreases rest.len() - i,
{
    let ls = seq![l] + rest;
    if i < rest.len() {
        assert(ls[i + 1] == rest[i]);
        lemma_field_from_tail(l, rest, key, i + 1);
        lemma_block_lines_shift(l, rest, i + 1);
    }
}

proof fn lemma_block_lines_shift(l: Seq<char>, rest: Seq<Seq<char>>, j: int)
    requires
        0 <= j,
    ensures
        block_lines(seq![l] + rest, j + 1) == block_lines(rest, j),
    decreases rest.len() - j,
{
    if j < rest.len() {
        assert((seq![l] + rest)[j + 1] == rest[j]);
        lemma_block_lines_shift(l, rest, j + 1);
    }
}

/// The first line that gives the key a plainly written value decides it,
/// whatever the lines after it hold.
pub proof fn lemma_first_value_wins(key: Seq<char>, value: Seq<char>, rest: Seq<Seq<char>>)
    requires
        key.len() > 0,
        !is_ws(key[0]),
        !key.contains('\n'),
        is_plain_value(value),
    ensures
        field_from(seq![key + seq![':', ' '] + value] + rest, key, 0) == Some(value),
{
    lemma_key_line(key, value);
    assert((seq![key + seq![':', ' '] + value] + rest)[0] == key + seq![':', ' '] + value);
}

/// A line that gives the key an empty value, or a line of another key, is
/// passed over: the value comes from the lines after it.
pub proof fn lemma_empty_value_passed_over(key: Seq<char>, l: Seq<char>, rest: Seq<Seq<char>>)
    requires
        key_value(l, key) is None || key_value(l, key) == Some(Seq::<char>::empty()),
    ensures
        field_from(seq![l] + rest, key, 0) == field_from(rest, key, 0),
{
    assert((seq![l] + rest)[0] == l);
    if key_value(l, key) is Some {
        assert(unquote(Seq::<char>::empty()) =~= Seq::<char>::empty());
        assert(Seq::<char>::empty() != folded_marker());
        assert(Seq::<char>::empty() != literal_marker());
    }
    lemma_field_from_tail(l, rest, key, 0);
}

} // verus!
