//! Character-level text operations: the model of the `str` methods that the
//! parsers use (`trim`, `lines`, `split_whitespace`, `splitn`, ...), stated over
//! `Seq<char>` and implemented over `Vec<char>`.
use vstd::prelude::*;

verus! {

// ---------------------------------------------------------------------------
// Whitespace
// ---------------------------------------------------------------------------

/// Unicode `White_Space`, the set `char::is_whitespace` accepts.
pub open spec fn is_ws(c: char) -> bool {
    let u = c as u32;
    ||| (0x09 <= u && u <= 0x0D)
    ||| u == 0x20
    ||| u == 0x85
    ||| u == 0xA0
    ||| u == 0x1680
    ||| (0x2000 <= u && u <= 0x200A)
    ||| u == 0x2028
    ||| u == 0x2029
    ||| u == 0x202F
    ||| u == 0x205F
    ||| u == 0x3000
}

/// `char::is_whitespace`.
pub fn is_whitespace(c: char) -> (b: bool)
    ensures
        b == is_ws(c),
{
    let u = c as u32;
    (0x09 <= u && u <= 0x0D) || u == 0x20 || u == 0x85 || u == 0xA0 || u == 0x1680 || (0x2000
        <= u && u <= 0x200A) || u == 0x2028 || u == 0x2029 || u == 0x202F || u == 0x205F || u
        == 0x3000
}

/// `s` with its leading whitespace removed.
pub open spec fn trim_start(s: Seq<char>) -> Seq<char>
    decreases s.len(),
{
    if s.len() > 0 && is_ws(s[0]) {
        trim_start(s.drop_first())
    } else {
        s
    }
}

/// `s` with its trailing whitespace removed.
pub open spec fn trim_end(s: Seq<char>) -> Seq<char>
    decreases s.len(),
{
    if s.len() > 0 && is_ws(s.last()) {
        trim_end(s.drop_last())
    } else {
        s
    }
}

/// `s` with leading and trailing whitespace removed.
pub open spec fn trim(s: Seq<char>) -> Seq<char> {
    trim_end(trim_start(s))
}

pub open spec fn no_ws(s: Seq<char>) -> bool {
    forall|i: int| 0 <= i < s.len() ==> !is_ws(#[trigger] s[i])
}

pub proof fn lemma_trim_no_ws(s: Seq<char>)
    requires
        no_ws(s),
    ensures
        trim(s) == s,
        trim_start(s) == s,
        trim_end(s) == s,
{
    if s.len() > 0 {
        assert(!is_ws(s[0]));
        assert(!is_ws(s[s.len() - 1]));
    }
}

// ---------------------------------------------------------------------------
// Searching
// ---------------------------------------------------------------------------

/// Index of the first `c` in `s`, or `s.len()` when there is none.
pub open spec fn char_pos(s: Seq<char>, c: char) -> nat
    decreases s.len(),
{
    if s.len() == 0 {
        0
    } else if s[0] == c {
        0
    } else {
        1 + char_pos(s.drop_first(), c)
    }
}

/// Index of the first whitespace character of `s`, or `s.len()`.
pub open spec fn ws_pos(s: Seq<char>) -> nat
    decreases s.len(),
{
    if s.len() == 0 {
        0
    } else if is_ws(s[0]) {
        0
    } else {
        1 + ws_pos(s.drop_first())
    }
}

/// Index of the last `c` in `s`.
pub open spec fn last_pos(s: Seq<char>, c: char) -> Option<int>
    decreases s.len(),
{
    if s.len() == 0 {
        None
    } else if s.last() == c {
        Some(s.len() - 1)
    } else {
        last_pos(s.drop_last(), c)
    }
}

pub proof fn lemma_char_pos(s: Seq<char>, c: char, k: int)
    requires
        0 <= k <= s.len(),
        forall|j: int| 0 <= j < k ==> s[j] != c,
        k < s.len() ==> s[k] == c,
    ensures
        char_pos(s, c) == k,
    decreases k,
{
    if k > 0 {
        lemma_char_pos(s.drop_first(), c, k - 1);
    }
}

pub proof fn lemma_ws_pos(s: Seq<char>, k: int)
    requires
        0 <= k <= s.len(),
        forall|j: int| 0 <= j < k ==> !is_ws(#[trigger] s[j]),
        k < s.len() ==> is_ws(s[k]),
    ensures
        ws_pos(s) == k,
    decreases k,
{
    if k > 0 {
        assert(!is_ws(s[0]));
        assert forall|j: int| 0 <= j < k - 1 implies !is_ws(#[trigger] s.drop_first()[j]) by {
            assert(!is_ws(s[j + 1]));
        }
        lemma_ws_pos(s.drop_first(), k - 1);
    }
}

pub proof fn lemma_char_pos_bound(s: Seq<char>, c: char)
    ensures
        char_pos(s, c) <= s.len(),
        char_pos(s, c) < s.len() ==> s[char_pos(s, c) as int] == c,
        forall|j: int| 0 <= j < char_pos(s, c) ==> s[j] != c,
    decreases s.len(),
{
    if s.len() > 0 && s[0] != c {
        lemma_char_pos_bound(s.drop_first(), c);
        assert forall|j: int| 0 <= j < char_pos(s, c) implies s[j] != c by {
            if j > 0 {
                assert(s[j] == s.drop_first()[j - 1]);
            }
        }
    }
}

pub proof fn lemma_last_pos(s: Seq<char>, c: char, k: int)
    requires
        -1 <= k < s.len(),
        forall|j: int| k < j < s.len() ==> s[j] != c,
        k >= 0 ==> s[k] == c,
    ensures
        last_pos(s, c) == (if k >= 0 {
            Some(k)
        } else {
            None::<int>
        }),
    decreases s.len(),
{
    if s.len() > 0 && k < s.len() - 1 {
        assert forall|j: int| k < j < s.drop_last().len() implies s.drop_last()[j] != c by {
            assert(s.drop_last()[j] == s[j]);
        }
        if k >= 0 {
            assert(s.drop_last()[k] == s[k]);
        }
        lemma_last_pos(s.drop_last(), c, k);
    }
}

/// `p` occurs in `s` at index `i`.
pub open spec fn occurs_at(s: Seq<char>, p: Seq<char>, i: int) -> bool {
    0 <= i && i + p.len() <= s.len() && s.subrange(i, i + p.len()) == p
}

/// `p` occurs somewhere in `s` (`str::contains` with a string pattern).
pub open spec fn contains_seq(s: Seq<char>, p: Seq<char>) -> bool {
    exists|i: int| occurs_at(s, p, i)
}

pub open spec fn starts_with(s: Seq<char>, p: Seq<char>) -> bool {
    occurs_at(s, p, 0)
}

pub open spec fn ends_with(s: Seq<char>, p: Seq<char>) -> bool {
    occurs_at(s, p, s.len() - p.len())
}

/// `s` with every trailing copy of the non-empty `p` removed (`str::trim_end_matches`).
pub open spec fn trim_end_matches(s: Seq<char>, p: Seq<char>) -> Seq<char>
    decreases s.len(),
{
    if p.len() > 0 && ends_with(s, p) {
        trim_end_matches(s.subrange(0, s.len() - p.len()), p)
    } else {
        s
    }
}

// ---------------------------------------------------------------------------
// Splitting
// ---------------------------------------------------------------------------

/// A line as `str::lines` yields it: its text before the `\n`, without a final `\r`.
pub open spec fn strip_cr(l: Seq<char>) -> Seq<char> {
    if l.len() > 0 && l.last() == '\r' {
        l.drop_last()
    } else {
        l
    }
}

/// The lines of `s` (`str::lines`): split at each `\n`, a `\r` before the `\n`
/// dropped, and no empty line after a final `\n`.
pub open spec fn lines(s: Seq<char>) -> Seq<Seq<char>>
    decreases s.len(),
{
    if s.len() == 0 {
        seq![]
    } else {
        let k = char_pos(s, '\n');
        if k < s.len() {
            seq![strip_cr(s.subrange(0, k as int))] + lines(s.subrange(k + 1int, s.len() as int))
        } else {
            seq![s]
        }
    }
}

/// The whitespace-separated words of `s` (`str::split_whitespace`).
pub open spec fn words(s: Seq<char>) -> Seq<Seq<char>>
    decreases s.len(),
{
    if s.len() == 0 {
        seq![]
    } else if is_ws(s[0]) {
        words(s.drop_first())
    } else {
        let k = ws_pos(s);
        if 0 < k <= s.len() {
            seq![s.subrange(0, k as int)] + words(s.subrange(k as int, s.len() as int))
        } else {
            seq![]
        }
    }
}

/// `s` split at `c` into at most `n` pieces (`str::splitn`), `n >= 1`.
pub open spec fn splitn(s: Seq<char>, n: nat, c: char) -> Seq<Seq<char>>
    decreases n,
{
    if n <= 1 {
        seq![s]
    } else {
        let k = char_pos(s, c);
        if k < s.len() {
            seq![s.subrange(0, k as int)] + splitn(s.subrange(k + 1int, s.len() as int), (n - 1) as nat, c)
        } else {
            seq![s]
        }
    }
}

/// The first of `ws` that satisfies `p`.
pub open spec fn first_match(ws: Seq<Seq<char>>, p: spec_fn(Seq<char>) -> bool) -> Option<Seq<char>>
    decreases ws.len(),
{
    if ws.len() == 0 {
        None
    } else if p(ws[0]) {
        Some(ws[0])
    } else {
        first_match(ws.drop_first(), p)
    }
}

// ---------------------------------------------------------------------------
// Conversions
// ---------------------------------------------------------------------------

/// `String::push`: appends one character.
#[verifier::external_body]
fn push_char(s: &mut String, c: char)
    ensures
        final(s)@ == old(s)@.push(c),
{
    s.push(c);
}

/// The characters of `s`.
pub fn chars_of(s: &str) -> (v: Vec<char>)
    ensures
        v@ == s@,
{
    let mut v: Vec<char> = Vec::new();
    for c in it: s.chars()
        invariant
            v@ == it.seq().take(it.index() as int),
    {
        v.push(c);
    }
    v
}

/// The string of the characters `v`.
pub fn string_of(v: &Vec<char>) -> (s: String)
    ensures
        s@ == v@,
{
    let mut s = String::new();
    let mut i: usize = 0;
    while i < v.len()
        invariant
            i <= v.len(),
            s@ == v@.subrange(0, i as int),
        decreases v.len() - i,
    {
        push_char(&mut s, v[i]);
        i = i + 1;
        assert(s@ =~= v@.subrange(0, i as int));
    }
    assert(v@.subrange(0, v.len() as int) =~= v@);
    s
}

/// The characters `v[a..b]`.
pub fn slice_chars(v: &Vec<char>, a: usize, b: usize) -> (r: Vec<char>)
    requires
        a <= b <= v.len(),
    ensures
        r@ == v@.subrange(a as int, b as int),
{
    let mut r: Vec<char> = Vec::new();
    let mut i = a;
    while i < b
        invariant
            a <= i <= b <= v.len(),
            r@ == v@.subrange(a as int, i as int),
        decreases b - i,
    {
        r.push(v[i]);
        i = i + 1;
        assert(r@ =~= v@.subrange(a as int, i as int));
    }
    r
}

/// `a` followed by `b`.
pub fn concat(a: &Vec<char>, b: &Vec<char>) -> (r: Vec<char>)
    ensures
        r@ == a@ + b@,
{
    let mut r = a.clone();
    let mut i: usize = 0;
    while i < b.len()
        invariant
            i <= b.len(),
            r@ == a@ + b@.subrange(0, i as int),
        decreases b.len() - i,
    {
        r.push(b[i]);
        i = i + 1;
        assert(r@ =~= a@ + b@.subrange(0, i as int));
    }
    assert(b@.subrange(0, b.len() as int) =~= b@);
    r
}

/// `a` and `b` hold the same characters.
pub fn seq_eq(a: &Vec<char>, b: &[char]) -> (r: bool)
    ensures
        r == (a@ == b@),
{
    if a.len() != b.len() {
        return false;
    }
    let mut i: usize = 0;
    while i < a.len()
        invariant
            a.len() == b.len(),
            i <= a.len(),
            forall|j: int| 0 <= j < i ==> a@[j] == b@[j],
        decreases a.len() - i,
    {
        if a[i] != b[i] {
            return false;
        }
        i = i + 1;
    }
    assert(a@ =~= b@);
    true
}

// ---------------------------------------------------------------------------
// Trimming
// ---------------------------------------------------------------------------

/// `str::trim_start`.
pub fn trim_start_of(v: &Vec<char>) -> (r: Vec<char>)
    ensures
        r@ == trim_start(v@),
{
    let mut i: usize = 0;
    assert(v@.subrange(0, v.len() as int) =~= v@);
    while i < v.len() && is_whitespace(v[i])
        invariant
            i <= v.len(),
            trim_start(v@) == trim_start(v@.subrange(i as int, v.len() as int)),
        decreases v.len() - i,
    {
        assert(v@.subrange(i as int, v.len() as int).drop_first() =~= v@.subrange(
            i + 1,
            v.len() as int,
        ));
        i = i + 1;
    }
    slice_chars(v, i, v.len())
}

/// `str::trim_end`.
pub fn trim_end_of(v: &Vec<char>) -> (r: Vec<char>)
    ensures
        r@ == trim_end(v@),
{
    let mut j: usize = v.len();
    assert(v@.subrange(0, j as int) =~= v@);
    while j > 0 && is_whitespace(v[j - 1])
        invariant
            j <= v.len(),
            trim_end(v@) == trim_end(v@.subrange(0, j as int)),
        decreases j,
    {
        assert(v@.subrange(0, j as int).drop_last() =~= v@.subrange(0, j - 1));
        j = j - 1;
    }
    slice_chars(v, 0, j)
}

/// `str::trim`.
pub fn trim_of(v: &Vec<char>) -> (r: Vec<char>)
    ensures
        r@ == trim(v@),
{
    let t = trim_start_of(v);
    trim_end_of(&t)
}


// ---------------------------------------------------------------------------
// Searching, executable
// ---------------------------------------------------------------------------

/// The views of `vs`, one for one.
pub open spec fn views(vs: Seq<Vec<char>>) -> Seq<Seq<char>> {
    vs.map_values(|v: Vec<char>| v@)
}

/// Index of the first `c` in `v`, or `v.len()`.
pub fn find_char(v: &Vec<char>, c: char) -> (k: usize)
    ensures
        k == char_pos(v@, c),
        k <= v.len(),
{
    let mut k: usize = 0;
    while k < v.len() && v[k] != c
        invariant
            k <= v.len(),
            forall|j: int| 0 <= j < k ==> v@[j] != c,
        decreases v.len() - k,
    {
        k = k + 1;
    }
    proof {
        lemma_char_pos(v@, c, k as int);
    }
    k
}

/// Index of the last `c` in `v`.
pub fn rfind_char(v: &Vec<char>, c: char) -> (r: Option<usize>)
    ensures
        r matches Some(k) ==> last_pos(v@, c) == Some(k as int) && k < v.len(),
        r is None ==> last_pos(v@, c) is None,
{
    let mut j: usize = v.len();
    while j > 0 && v[j - 1] != c
        invariant
            j <= v.len(),
            forall|i: int| j <= i < v.len() ==> v@[i] != c,
        decreases j,
    {
        j = j - 1;
    }
    proof {
        lemma_last_pos(v@, c, j - 1);
    }
    if j == 0 {
        None
    } else {
        Some(j - 1)
    }
}

/// `v` holds `c`.
pub fn has_char(v: &Vec<char>, c: char) -> (b: bool)
    ensures
        b == v@.contains(c),
{
    let k = find_char(v, c);
    proof {
        lemma_char_pos_bound(v@, c);
        if k < v.len() {
            assert(v@[k as int] == c);
        }
    }
    k < v.len()
}

/// `p` occurs in `v` at index `i`.
pub fn occurs_at_exec(v: &Vec<char>, p: &[char], i: usize) -> (b: bool)
    ensures
        b == occurs_at(v@, p@, i as int),
{
    if i > v.len() || p.len() > v.len() - i {
        return false;
    }
    let mut j: usize = 0;
    while j < p.len()
        invariant
            i + p.len() <= v.len(),
            j <= p.len(),
            forall|t: int| 0 <= t < j ==> v@[i + t] == p@[t],
        decreases p.len() - j,
    {
        if v[i + j] != p[j] {
            assert(v@.subrange(i as int, i + p.len())[j as int] != p@[j as int]);
            return false;
        }
        j = j + 1;
    }
    assert(v@.subrange(i as int, i + p.len()) =~= p@);
    true
}

/// `str::starts_with`.
pub fn starts_with_exec(v: &Vec<char>, p: &[char]) -> (b: bool)
    ensures
        b == starts_with(v@, p@),
{
    occurs_at_exec(v, p, 0)
}

/// `str::ends_with`.
pub fn ends_with_exec(v: &Vec<char>, p: &[char]) -> (b: bool)
    ensures
        b == ends_with(v@, p@),
{
    if p.len() > v.len() {
        false
    } else {
        occurs_at_exec(v, p, v.len() - p.len())
    }
}

/// `str::contains`.
pub fn contains_exec(v: &Vec<char>, p: &[char]) -> (b: bool)
    ensures
        b == contains_seq(v@, p@),
{
    if p.len() > v.len() {
        return false;
    }
    let last = v.len() - p.len();
    let mut i: usize = 0;
    loop
        invariant
            i <= last,
            last + p.len() == v.len(),
            forall|t: int| 0 <= t < i ==> !occurs_at(v@, p@, t),
        ensures
            forall|t: int| 0 <= t <= last ==> !occurs_at(v@, p@, t),
        decreases last - i,
    {
        if occurs_at_exec(v, p, i) {
            return true;
        }
        if i == last {
            break;
        }
        i = i + 1;
    }
    false
}

/// `str::trim_end_matches` with a non-empty pattern.
pub fn trim_end_matches_exec(v: &Vec<char>, p: &[char]) -> (r: Vec<char>)
    requires
        p.len() > 0,
    ensures
        r@ == trim_end_matches(v@, p@),
{
    let mut j: usize = v.len();
    assert(v@.subrange(0, j as int) =~= v@);
    while j >= p.len() && occurs_at_exec(v, p, j - p.len())
        invariant
            j <= v.len(),
            p.len() > 0,
            trim_end_matches(v@, p@) == trim_end_matches(v@.subrange(0, j as int), p@),
        decreases j,
    {
        let ghost t = v@.subrange(0, j as int);
        assert(t.subrange(j - p.len(), j as int) =~= v@.subrange(j - p.len(), j as int));
        assert(t.subrange(0, t.len() - p.len()) =~= v@.subrange(0, j - p.len()));
        j = j - p.len();
    }
    proof {
        let t = v@.subrange(0, j as int);
        if j >= p.len() {
            assert(t.subrange(j - p.len(), j as int) =~= v@.subrange(j - p.len(), j as int));
        }
    }
    slice_chars(v, 0, j)
}

// ---------------------------------------------------------------------------
// Splitting, executable
// ---------------------------------------------------------------------------

/// `str::lines`.
pub fn lines_of(v: &Vec<char>) -> (r: Vec<Vec<char>>)
    ensures
        views(r@) == lines(v@),
{
    let mut out: Vec<Vec<char>> = Vec::new();
    let mut start: usize = 0;
    let mut i: usize = 0;
    assert(v@.subrange(0, v.len() as int) =~= v@);
    while i < v.len()
        invariant
            start <= i <= v.len(),
            forall|k: int| start <= k < i ==> v@[k] != '\n',
            lines(v@) == views(out@) + lines(v@.subrange(start as int, v.len() as int)),
        decreases v.len() - i,
    {
        if v[i] == '\n' {
            let ghost t = v@.subrange(start as int, v.len() as int);
            proof {
                lemma_char_pos(t, '\n', i - start);
                assert(t.subrange(0, i - start) =~= v@.subrange(start as int, i as int));
                assert(t.subrange(i - start + 1, t.len() as int) =~= v@.subrange(
                    i + 1,
                    v.len() as int,
                ));
            }
            let end = if i > start && v[i - 1] == '\r' {
                i - 1
            } else {
                i
            };
            let line = slice_chars(v, start, end);
            assert(line@ =~= strip_cr(v@.subrange(start as int, i as int)));
            let ghost before = out@;
            out.push(line);
            assert(views(out@) =~= views(before) + seq![line@]);
            start = i + 1;
        }
        i = i + 1;
    }
    if start < v.len() {
        let ghost t = v@.subrange(start as int, v.len() as int);
        proof {
            lemma_char_pos(t, '\n', t.len() as int);
        }
        let line = slice_chars(v, start, v.len());
        let ghost before = out@;
        out.push(line);
        assert(views(out@) =~= views(before) + seq![line@]);
    } else {
        assert(views(out@) =~= views(out@) + seq![]);
    }
    out
}

/// `str::split_whitespace`.
pub fn words_of(v: &Vec<char>) -> (r: Vec<Vec<char>>)
    ensures
        views(r@) == words(v@),
{
    let mut out: Vec<Vec<char>> = Vec::new();
    let mut i: usize = 0;
    assert(v@.subrange(0, v.len() as int) =~= v@);
    while i < v.len()
        invariant
            i <= v.len(),
            words(v@) == views(out@) + words(v@.subrange(i as int, v.len() as int)),
        decreases v.len() - i,
    {
        let ghost t = v@.subrange(i as int, v.len() as int);
        if is_whitespace(v[i]) {
            assert(t.drop_first() =~= v@.subrange(i + 1, v.len() as int));
            i = i + 1;
        } else {
            let mut j = i + 1;
            while j < v.len() && !is_whitespace(v[j])
                invariant
                    i < j <= v.len(),
                    forall|k: int| i <= k < j ==> !is_ws(#[trigger] v@[k]),
                decreases v.len() - j,
            {
                j = j + 1;
            }
            proof {
                assert forall|k: int| 0 <= k < j - i implies !is_ws(#[trigger] t[k]) by {
                    assert(t[k] == v@[i + k]);
                }
                lemma_ws_pos(t, j - i);
                assert(t.subrange(0, j - i) =~= v@.subrange(i as int, j as int));
                assert(t.subrange(j - i, t.len() as int) =~= v@.subrange(j as int, v.len() as int));
            }
            let w = slice_chars(v, i, j);
            let ghost before = out@;
            out.push(w);
            assert(views(out@) =~= views(before) + seq![w@]);
            i = j;
        }
    }
    assert(views(out@) =~= views(out@) + seq![]);
    out
}

/// `str::splitn`.
pub fn splitn_of(v: &Vec<char>, n: usize, c: char) -> (r: Vec<Vec<char>>)
    requires
        n >= 1,
    ensures
        views(r@) == splitn(v@, n as nat, c),
        1 <= r.len() <= n,
{
    let mut out: Vec<Vec<char>> = Vec::new();
    let mut rest = v.clone();
    let mut m = n;
    while m > 1
        invariant
            1 <= m <= n,
            out.len() + m == n,
            splitn(v@, n as nat, c) == views(out@) + splitn(rest@, m as nat, c),
        decreases m,
    {
        let k = find_char(&rest, c);
        if k >= rest.len() {
            let ghost before = out@;
            out.push(rest);
            assert(views(out@) =~= views(before) + seq![rest@]);
            return out;
        }
        let piece = slice_chars(&rest, 0, k);
        let tail = slice_chars(&rest, k + 1, rest.len());
        let ghost before = out@;
        out.push(piece);
        assert(views(out@) =~= views(before) + seq![piece@]);
        rest = tail;
        m = m - 1;
    }
    let ghost before = out@;
    out.push(rest);
    assert(views(out@) =~= views(before) + seq![rest@]);
    out
}


// ---------------------------------------------------------------------------
// Facts about the splitting functions
// ---------------------------------------------------------------------------

pub proof fn lemma_trim_ends(s: Seq<char>)
    requires
        s.len() > 0,
        !is_ws(s[0]),
        !is_ws(s.last()),
    ensures
        trim(s) == s,
{
}

pub proof fn lemma_words_single(w: Seq<char>)
    requires
        w.len() > 0,
        no_ws(w),
    ensures
        words(w) == seq![w],
{
    lemma_ws_pos(w, w.len() as int);
    assert(!is_ws(w[0]));
    assert(w.subrange(0, w.len() as int) =~= w);
    assert(words(w.subrange(w.len() as int, w.len() as int)) == Seq::<Seq<char>>::empty());
    assert(words(w) =~= seq![w]);
}

pub proof fn lemma_words_elements(s: Seq<char>)
    ensures
        forall|k: int|
            0 <= k < words(s).len() ==> (#[trigger] words(s)[k]).len() > 0 && no_ws(words(s)[k]),
    decreases s.len(),
{
    if s.len() > 0 {
        if is_ws(s[0]) {
            lemma_words_elements(s.drop_first());
            assert(words(s) == words(s.drop_first()));
        } else {
            let k = ws_pos(s);
            lemma_ws_pos_bound(s);
            assert(k > 0) by {
                assert(ws_pos(s) == 1 + ws_pos(s.drop_first()));
            }
            if 0 < k <= s.len() {
                lemma_ws_pos_bound(s);
                let rest = s.subrange(k as int, s.len() as int);
                lemma_words_elements(rest);
                let w0 = s.subrange(0, k as int);
                assert forall|i: int| 0 <= i < w0.len() implies !is_ws(#[trigger] w0[i]) by {
                    assert(w0[i] == s[i]);
                }
                assert forall|j: int| 0 <= j < words(s).len() implies (#[trigger] words(s)[j]).len()
                    > 0 && no_ws(words(s)[j]) by {
                    assert(words(s) == seq![w0] + words(rest));
                    if j > 0 {
                        assert(words(s)[j] == words(rest)[j - 1]);
                    } else {
                        assert(words(s)[0] == w0);
                    }
                }
            }
        }
    }
}

pub proof fn lemma_ws_pos_bound(s: Seq<char>)
    ensures
        ws_pos(s) <= s.len(),
        forall|j: int| 0 <= j < ws_pos(s) ==> !is_ws(#[trigger] s[j]),
    decreases s.len(),
{
    if s.len() > 0 && !is_ws(s[0]) {
        lemma_ws_pos_bound(s.drop_first());
        assert forall|j: int| 0 <= j < ws_pos(s) implies !is_ws(#[trigger] s[j]) by {
            if j > 0 {
                assert(s[j] == s.drop_first()[j - 1]);
            }
        }
    }
}

pub proof fn lemma_first_match_elem(xs: Seq<Seq<char>>, p: spec_fn(Seq<char>) -> bool)
    ensures
        first_match(xs, p) matches Some(w) ==> p(w) && exists|k: int| 0 <= k < xs.len() && xs[k]
            == w,
    decreases xs.len(),
{
    if xs.len() > 0 && !p(xs[0]) {
        lemma_first_match_elem(xs.drop_first(), p);
        if let Some(w) = first_match(xs, p) {
            let k = choose|k: int| 0 <= k < xs.drop_first().len() && xs.drop_first()[k] == w;
            assert(xs[k + 1] == w);
        }
    } else if xs.len() > 0 {
        assert(xs[0] == xs[0]);
    }
}

pub proof fn lemma_splitn_single(s: Seq<char>, n: nat, c: char)
    requires
        !s.contains(c),
    ensures
        splitn(s, n, c) == seq![s],
{
    lemma_char_pos(s, c, s.len() as int);
}

pub proof fn lemma_splitn_cons(a: Seq<char>, b: Seq<char>, n: nat, c: char)
    requires
        !a.contains(c),
        n >= 2,
    ensures
        splitn(a + seq![c] + b, n, c) == seq![a] + splitn(b, (n - 1) as nat, c),
{
    let s = a + seq![c] + b;
    assert forall|j: int| 0 <= j < a.len() implies s[j] != c by {
        assert(s[j] == a[j]);
    }
    lemma_char_pos(s, c, a.len() as int);
    assert(s.subrange(0, a.len() as int) =~= a);
    assert(s.subrange(a.len() + 1int, s.len() as int) =~= b);
}

pub proof fn lemma_splitn_pieces(s: Seq<char>, n: nat, c: char)
    requires
        n >= 1,
    ensures
        1 <= splitn(s, n, c).len() <= n,
        forall|k: int|
            0 <= k < splitn(s, n, c).len() - 1 ==> !(#[trigger] splitn(s, n, c)[k]).contains(c),
        splitn(s, n, c).len() < n ==> !splitn(s, n, c).last().contains(c),
    decreases n,
{
    if n > 1 {
        let k = char_pos(s, c);
        lemma_char_pos_bound(s, c);
        if k < s.len() {
            let rest = s.subrange(k + 1int, s.len() as int);
            lemma_splitn_pieces(rest, (n - 1) as nat, c);
            let head = s.subrange(0, k as int);
            assert(!head.contains(c)) by {
                assert forall|j: int| 0 <= j < head.len() implies head[j] != c by {
                    assert(head[j] == s[j]);
                }
            }
            let ps = splitn(s, n, c);
            assert forall|i: int| 0 <= i < ps.len() - 1 implies !(#[trigger] ps[i]).contains(c) by {
                if i > 0 {
                    assert(ps[i] == splitn(rest, (n - 1) as nat, c)[i - 1]);
                }
            }
        } else {
            assert(!s.contains(c)) by {
                assert forall|j: int| 0 <= j < s.len() implies s[j] != c by {}
            }
        }
    }
}


// ---------------------------------------------------------------------------
// Facts about trimming and lines
// ---------------------------------------------------------------------------

pub open spec fn all_ws(s: Seq<char>) -> bool {
    forall|i: int| 0 <= i < s.len() ==> is_ws(#[trigger] s[i])
}

pub proof fn lemma_trim_start_all_ws(s: Seq<char>)
    requires
        all_ws(s),
    ensures
        trim_start(s).len() == 0,
    decreases s.len(),
{
    if s.len() > 0 {
        assert(is_ws(s[0]));
        assert forall|i: int| 0 <= i < s.drop_first().len() implies is_ws(#[trigger] s.drop_first()[i]) by {
            assert(s.drop_first()[i] == s[i + 1]);
        }
        lemma_trim_start_all_ws(s.drop_first());
    }
}

pub proof fn lemma_trim_end_all_ws(s: Seq<char>)
    requires
        all_ws(s),
    ensures
        trim_end(s).len() == 0,
    decreases s.len(),
{
    if s.len() > 0 {
        assert(is_ws(s[s.len() - 1]));
        assert forall|i: int| 0 <= i < s.drop_last().len() implies is_ws(#[trigger] s.drop_last()[i]) by {
            assert(s.drop_last()[i] == s[i]);
        }
        lemma_trim_end_all_ws(s.drop_last());
    }
}

/// `trim_end(s)` is `s` without a suffix of whitespace.
pub proof fn lemma_trim_end_prefix(s: Seq<char>)
    ensures
        trim_end(s).len() <= s.len(),
        trim_end(s) == s.subrange(0, trim_end(s).len() as int),
        all_ws(s.subrange(trim_end(s).len() as int, s.len() as int)),
        trim_end(s).len() > 0 ==> !is_ws(trim_end(s).last()),
    decreases s.len(),
{
    if s.len() > 0 && is_ws(s.last()) {
        lemma_trim_end_prefix(s.drop_last());
        let e = trim_end(s).len() as int;
        assert(s.drop_last().subrange(0, e) =~= s.subrange(0, e));
        assert forall|i: int| 0 <= i < s.subrange(e, s.len() as int).len() implies is_ws(
            #[trigger] s.subrange(e, s.len() as int)[i],
        ) by {
            if e + i < s.len() - 1 {
                assert(s.subrange(e, s.len() as int)[i] == s.drop_last().subrange(
                    e,
                    s.drop_last().len() as int,
                )[i]);
            }
        }
    } else {
        assert(s.subrange(0, s.len() as int) =~= s);
    }
}

pub proof fn lemma_trim_end_concat(x: Seq<char>, y: Seq<char>)
    ensures
        trim_end(y).len() > 0 ==> trim_end(x + y) == x + trim_end(y),
        trim_end(y).len() == 0 ==> trim_end(x + y) == trim_end(x),
    decreases y.len(),
{
    if y.len() == 0 {
        assert(x + y =~= x);
    } else {
        assert((x + y).last() == y.last());
        assert((x + y).drop_last() =~= x + y.drop_last());
        if is_ws(y.last()) {
            lemma_trim_end_concat(x, y.drop_last());
        }
    }
}

proof fn lemma_trim_start_concat(y: Seq<char>, w: Seq<char>)
    requires
        !all_ws(y),
    ensures
        trim_start(y + w) == trim_start(y) + w,
    decreases y.len(),
{
    assert(y.len() > 0);
    assert((y + w)[0] == y[0]);
    if is_ws(y[0]) {
        assert((y + w).drop_first() =~= y.drop_first() + w);
        assert(!all_ws(y.drop_first())) by {
            let i = choose|i: int| 0 <= i < y.len() && !is_ws(#[trigger] y[i]);
            assert(y.drop_first()[i - 1] == y[i]);
        }
        lemma_trim_start_concat(y.drop_first(), w);
    }
}

/// Whitespace after the text does not change what it trims to.
pub proof fn lemma_trim_ws_suffix(y: Seq<char>, w: Seq<char>)
    requires
        all_ws(w),
    ensures
        trim(y + w) == trim(y),
{
    lemma_trim_end_all_ws(w);
    if all_ws(y) {
        assert(all_ws(y + w)) by {
            assert forall|i: int| 0 <= i < (y + w).len() implies is_ws(#[trigger] (y + w)[i]) by {
                if i < y.len() {
                    assert((y + w)[i] == y[i]);
                } else {
                    assert((y + w)[i] == w[i - y.len()]);
                }
            }
        }
        lemma_trim_start_all_ws(y + w);
        lemma_trim_start_all_ws(y);
    } else {
        lemma_trim_start_concat(y, w);
        lemma_trim_end_concat(trim_start(y), w);
    }
}

/// The text is empty or ends with a line break: it is made of whole lines.
pub open spec fn whole_lines(h: Seq<char>) -> bool {
    h.len() == 0 || h.last() == '\n'
}

pub proof fn lemma_lines_concat(h: Seq<char>, z: Seq<char>)
    requires
        whole_lines(h),
    ensures
        lines(h + z) == lines(h) + lines(z),
    decreases h.len(),
{
    if h.len() == 0 {
        assert(h + z =~= z);
        assert(lines(h) + lines(z) =~= lines(z));
    } else {
        let s = h + z;
        let k = char_pos(h, '\n');
        lemma_char_pos_bound(h, '\n');
        assert(h[h.len() - 1] == '\n');
        if k == h.len() {
            assert(false);
        }
        assert forall|j: int| 0 <= j < k implies s[j] != '\n' by {
            assert(s[j] == h[j]);
        }
        lemma_char_pos(s, '\n', k as int);
        let rest = h.subrange(k + 1int, h.len() as int);
        assert(s.subrange(0, k as int) =~= h.subrange(0, k as int));
        assert(s.subrange(k + 1int, s.len() as int) =~= rest + z);
        assert(whole_lines(rest)) by {
            if rest.len() > 0 {
                assert(rest.last() == h.last());
            }
        }
        lemma_lines_concat(rest, z);
        assert(lines(h + z) =~= lines(h) + lines(z));
    }
}

pub proof fn lemma_lines_of_line(f: Seq<char>, y: Seq<char>)
    requires
        !f.contains('\n'),
    ensures
        lines(f + seq!['\n'] + y).len() > 0,
        lines(f + seq!['\n'] + y)[0] == strip_cr(f),
        f.len() > 0 ==> lines(f) == seq![f],
{
    let s = f + seq!['\n'] + y;
    assert forall|j: int| 0 <= j < f.len() implies s[j] != '\n' by {
        assert(s[j] == f[j]);
    }
    lemma_char_pos(s, '\n', f.len() as int);
    assert(s.subrange(0, f.len() as int) =~= f);
    lemma_char_pos(f, '\n', f.len() as int);
    assert(f.subrange(0, f.len() as int) =~= f);
}


/// `trim_end_matches` leaves a prefix of the text.
pub proof fn lemma_trim_end_matches_prefix(s: Seq<char>, p: Seq<char>)
    ensures
        trim_end_matches(s, p).len() <= s.len(),
        trim_end_matches(s, p) == s.subrange(0, trim_end_matches(s, p).len() as int),
    decreases s.len(),
{
    if p.len() > 0 && ends_with(s, p) {
        let t = s.subrange(0, s.len() - p.len());
        lemma_trim_end_matches_prefix(t, p);
        assert(t.subrange(0, trim_end_matches(t, p).len() as int) =~= s.subrange(
            0,
            trim_end_matches(t, p).len() as int,
        ));
    } else {
        assert(s.subrange(0, s.len() as int) =~= s);
    }
}


pub proof fn lemma_last_pos_bound(s: Seq<char>, c: char)
    ensures
        last_pos(s, c) matches Some(k) ==> 0 <= k < s.len() && s[k] == c,
    decreases s.len(),
{
    if s.len() > 0 && s.last() != c {
        lemma_last_pos_bound(s.drop_last(), c);
    }
}


proof fn lemma_ws_pos_concat(x: Seq<char>, y: Seq<char>)
    requires
        is_ws(y[0]),
        y.len() > 0,
    ensures
        ws_pos(x + y) == ws_pos(x),
{
    lemma_ws_pos_bound(x);
    lemma_ws_pos_exact(x);
    let k = ws_pos(x);
    let s = x + y;
    assert forall|j: int| 0 <= j < k implies !is_ws(#[trigger] s[j]) by {
        assert(s[j] == x[j]);
    }
    if k < x.len() {
        assert(s[k as int] == x[k as int]);
    } else {
        assert(s[k as int] == y[0]);
    }
    lemma_ws_pos(s, k as int);
}

proof fn lemma_ws_pos_exact(s: Seq<char>)
    ensures
        ws_pos(s) < s.len() ==> is_ws(s[ws_pos(s) as int]),
    decreases s.len(),
{
    if s.len() > 0 && !is_ws(s[0]) {
        lemma_ws_pos_exact(s.drop_first());
    }
}

/// The words of two texts joined by a space are the words of each.
pub proof fn lemma_words_concat(x: Seq<char>, y: Seq<char>)
    ensures
        words(x + seq![' '] + y) == words(x) + words(y),
    decreases x.len(),
{
    let sp = seq![' '];
    assert((' ' as u32) == 0x20);
    let s = x + sp + y;
    if x.len() == 0 {
        assert(s =~= sp + y);
        assert(s.drop_first() =~= y);
        assert(words(x) == Seq::<Seq<char>>::empty());
        assert(words(x) + words(y) =~= words(y));
    } else if is_ws(x[0]) {
        assert(s[0] == x[0]);
        assert(s.drop_first() =~= x.drop_first() + sp + y);
        lemma_words_concat(x.drop_first(), y);
    } else {
        assert(s[0] == x[0]);
        lemma_ws_pos_exact(x);
        lemma_ws_pos_bound(x);
        lemma_ws_pos_concat(x, sp + y);
        assert(s =~= x + (sp + y));
        let k = ws_pos(x);
        assert(k > 0) by {
            assert(ws_pos(x) == 1 + ws_pos(x.drop_first()));
        }
        assert(s.subrange(0, k as int) =~= x.subrange(0, k as int));
        let xr = x.subrange(k as int, x.len() as int);
        assert(s.subrange(k as int, s.len() as int) =~= xr + sp + y);
        lemma_words_concat(xr, y);
        assert(words(x) == seq![x.subrange(0, k as int)] + words(xr));
        assert(words(s) == seq![x.subrange(0, k as int)] + words(xr + sp + y));
        assert(words(s) =~= words(x) + words(y));
    }
}

pub proof fn lemma_first_match_concat(xs: Seq<Seq<char>>, ys: Seq<Seq<char>>, p: spec_fn(Seq<char>) -> bool)
    requires
        forall|k: int| 0 <= k < xs.len() ==> !p(#[trigger] xs[k]),
    ensures
        first_match(xs + ys, p) == first_match(ys, p),
    decreases xs.len(),
{
    if xs.len() == 0 {
        assert(xs + ys =~= ys);
    } else {
        assert((xs + ys)[0] == xs[0]);
        assert(!p(xs[0]));
        assert((xs + ys).drop_first() =~= xs.drop_first() + ys);
        assert forall|k: int| 0 <= k < xs.drop_first().len() implies !p(#[trigger] xs.drop_first()[k]) by {
            assert(xs.drop_first()[k] == xs[k + 1]);
        }
        lemma_first_match_concat(xs.drop_first(), ys, p);
    }
}

} // verus!
