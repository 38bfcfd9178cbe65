use deriva::color::{colorize, hex, hex_chars, replace_chars};
use deriva::screen::{c64_frame, option_line};
use deriva::text::{
    chars_of, is_space, same_chars, split_lines, split_words, starts_with, string_of, sub_chars,
    trim_chars, trim_end_chars,
};

const SAMPLES: &[&str] = &[
    "",
    "a",
    "a\n",
    "a\nb",
    "a\r\nb\r\n",
    "a\r",
    "\n\n",
    "\r\n",
    "  x  y\t\tz \u{3000}",
    "\u{a0}palavra\u{2003}outra\u{85}",
    "=== id \n@art #ff0000 #00ff00\n  arte\n",
    "linha com -> seta\r\n\r\nfim",
];

fn text(v: &Vec<char>) -> String {
    v.iter().collect()
}

#[test]
fn lines_agree_with_std() {
    for s in SAMPLES {
        let mine: Vec<String> = split_lines(&chars_of(s)).iter().map(text).collect();
        let std: Vec<String> = s.lines().map(|l| l.to_string()).collect();
        assert_eq!(mine, std, "input {s:?}");
    }
}

#[test]
fn words_agree_with_std() {
    for s in SAMPLES {
        let mine: Vec<String> = split_words(&chars_of(s)).iter().map(text).collect();
        let std: Vec<String> = s.split_whitespace().map(|l| l.to_string()).collect();
        assert_eq!(mine, std, "input {s:?}");
    }
}

#[test]
fn trims_agree_with_std() {
    for s in SAMPLES {
        assert_eq!(text(&trim_chars(&chars_of(s))), s.trim(), "input {s:?}");
        assert_eq!(text(&trim_end_chars(&chars_of(s))), s.trim_end(), "input {s:?}");
    }
}

#[test]
fn whitespace_agrees_with_std() {
    for code in 0u32..0x3100 {
        if let Some(c) = char::from_u32(code) {
            assert_eq!(is_space(c), c.is_whitespace(), "char {code:#x}");
        }
    }
}

fn hex_by_pairs(s: &str) -> Option<(u8, u8, u8)> {
    if s.len() == 7 && s.starts_with('#') && s[1..].bytes().all(|c| c.is_ascii_hexdigit()) {
        let v = |i: usize| u8::from_str_radix(&s[i..i + 2], 16).unwrap();
        Some((v(1), v(3), v(5)))
    } else {
        None
    }
}

#[test]
fn hex_agrees_with_digit_pairs() {
    let words = [
        "#000000", "#ffffff", "#ABCDEF", "#aBcDeF", "#+12345", "#-12345", "#++1234", "#12345",
        "#1234567", "#12 456", "#é1234", "#1234é", "123456", "#", "", "#+", "#0x1234",
    ];
    for w in words {
        assert_eq!(hex(w), hex_by_pairs(w), "word {w:?}");
    }
}

#[test]
fn hex_reads_back_its_notation() {
    for (r, g, b) in [(0u8, 0u8, 0u8), (255, 255, 255), (10, 11, 12), (0x5f, 0xd7, 0xff)] {
        let t = format!("#{r:02x}{g:02x}{b:02x}");
        assert_eq!(hex(&t), Some((r, g, b)));
        assert_eq!(hex_chars(&t.chars().collect()), Some((r, g, b)));
    }
}

#[test]
fn colorize_agrees_with_sequential_replace() {
    let samples = ["", "{c}x{0}", "{{c}y}", "{c{y}}", "{w}{m}{r}{g}{y}{c}{0}", "{c}{c}{c", "a {x} b"];
    for s in samples {
        let expected = s
            .replace("{c}", "\x1b[36m")
            .replace("{y}", "\x1b[33m")
            .replace("{g}", "\x1b[32m")
            .replace("{r}", "\x1b[31m")
            .replace("{m}", "\x1b[35m")
            .replace("{w}", "\x1b[97m")
            .replace("{0}", "\x1b[0m");
        assert_eq!(colorize(s), expected, "input {s:?}");
    }
}

#[test]
fn replace_is_left_to_right() {
    let s: Vec<char> = "aaaa".chars().collect();
    let p: Vec<char> = "aa".chars().collect();
    let r: Vec<char> = "b".chars().collect();
    assert_eq!(text(&replace_chars(&s, &p, &r)), "aaaa".replace("aa", "b"));
    let s: Vec<char> = "aaa".chars().collect();
    assert_eq!(text(&replace_chars(&s, &p, &r)), "ba");
}

#[test]
fn char_helpers() {
    let v = chars_of("olá mundo");
    assert_eq!(v.len(), 9);
    assert_eq!(string_of(&v), "olá mundo");
    assert_eq!(text(&sub_chars(&v, 4, 9)), "mundo");
    assert!(starts_with(&v, &chars_of("olá")));
    assert!(!starts_with(&v, &chars_of("ola")));
    assert!(!starts_with(&chars_of("ol"), &chars_of("olá")));
    assert!(same_chars(&v, &chars_of("olá mundo")));
    assert!(!same_chars(&v, &chars_of("olá")));
}

#[test]
fn frame_matches_layout() {
    for (w, h) in [(80u16, 24u16), (10, 3), (1, 5), (0, 2), (3, 0), (120, 40)] {
        let blank = " ".repeat(w as usize);
        let mut s = format!("\x1b[0m\x1b[2J\x1b[48;2;120;105;196m\x1b[1;1H{blank}\x1b[{h};1H{blank}");
        for row in 2..h {
            s += &format!("\x1b[{row};1H  \x1b[{row};{}H  ", w - 1);
        }
        s += "\x1b[0m\x1b[3;1H";
        assert_eq!(c64_frame(w, h), s, "size {w}x{h}");
    }
}

#[test]
fn option_lines() {
    assert_eq!(option_line(0, &"Ir".to_string()), "\x1b[5G\x1b[1m\x1b[33m  [1]\x1b[0m Ir");
    assert_eq!(option_line(9, &"Sair".to_string()), "\x1b[5G\x1b[1m\x1b[33m  [10]\x1b[0m Sair");
    assert_eq!(option_line(122, &"".to_string()), "\x1b[5G\x1b[1m\x1b[33m  [123]\x1b[0m ");
}
