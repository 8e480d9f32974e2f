use equip_lib::text::{
    chars_of, is_whitespace, lines_of, splitn_of, string_of, trim_end_matches_exec, trim_of,
    words_of,
};

const SAMPLES: &[&str] = &[
    "",
    "a",
    "\n",
    "\r\n",
    "a\nb",
    "a\r\nb\r\n",
    "a\n\nb\n",
    "a\rb\r",
    "line\r",
    "\r",
    "\n\n",
    "  lead and trail \t",
    "\u{3000}wide\u{a0}space\u{2029}",
    "x\u{85}y\u{1680}z",
    "caf\u{e9} \u{1f600}/\u{e9}t\u{e9}//end/",
    "////",
    "a/b/c/d/e",
];

fn text(v: &[char]) -> String {
    v.iter().collect()
}

#[test]
fn whitespace_matches_std_for_every_char() {
    for u in 0u32..=0x10FFFF {
        if let Some(c) = char::from_u32(u) {
            assert_eq!(is_whitespace(c), c.is_whitespace(), "code point {u:#x}");
        }
    }
}

#[test]
fn trim_matches_std() {
    for s in SAMPLES {
        assert_eq!(text(&trim_of(&chars_of(s))), s.trim(), "{s:?}");
    }
}

#[test]
fn lines_match_std() {
    for s in SAMPLES {
        let ours: Vec<String> = lines_of(&chars_of(s)).iter().map(|l| text(l)).collect();
        let std: Vec<String> = s.lines().map(String::from).collect();
        assert_eq!(ours, std, "{s:?}");
    }
}

#[test]
fn words_match_std() {
    for s in SAMPLES {
        let ours: Vec<String> = words_of(&chars_of(s)).iter().map(|w| text(w)).collect();
        let std: Vec<String> = s.split_whitespace().map(String::from).collect();
        assert_eq!(ours, std, "{s:?}");
    }
}

#[test]
fn splitn_matches_std() {
    for s in SAMPLES {
        for n in 1..6 {
            let ours: Vec<String> = splitn_of(&chars_of(s), n, '/').iter().map(|w| text(w)).collect();
            let std: Vec<String> = s.splitn(n, '/').map(String::from).collect();
            assert_eq!(ours, std, "{s:?} {n}");
        }
    }
}

#[test]
fn trim_end_matches_matches_std() {
    for s in SAMPLES.iter().chain(["r.git.git", ".git", "x.gi"].iter()) {
        let v = chars_of(s);
        assert_eq!(text(&trim_end_matches_exec(&v, &['/'])), s.trim_end_matches('/'));
        let git: Vec<char> = ".git".chars().collect();
        assert_eq!(text(&trim_end_matches_exec(&v, &git)), s.trim_end_matches(".git"));
    }
}

#[test]
fn string_round_trip() {
    for s in SAMPLES {
        assert_eq!(string_of(&chars_of(s)), *s);
    }
}

#[test]
fn utf8_width_matches_std_for_every_char() {
    for u in 0u32..=0x10FFFF {
        if let Some(c) = char::from_u32(u) {
            assert_eq!(equip_lib::skill::utf8_len_of(c), c.len_utf8(), "code point {u:#x}");
        }
    }
}
