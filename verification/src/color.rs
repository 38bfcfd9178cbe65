//! Colors: `#RRGGBB` hex triples for art gradients, and the inline color
//! tags (`{c}`, `{y}`, ...) that stories use in art and text.
use vstd::prelude::*;
use crate::text::{chars_of, string_of, sub_chars};

verus! {

/// A color as red, green and blue components.
pub type Rgb = (u8, u8, u8);

/// Whether `c` is a base-16 digit (either case).
pub open spec fn is_hex_digit(c: char) -> bool {
    ||| ('0' <= c && c <= '9')
    ||| ('a' <= c && c <= 'f')
    ||| ('A' <= c && c <= 'F')
}

/// The value of the base-16 digit `c`.
pub open spec fn hex_digit_value(c: char) -> nat {
    if '0' <= c && c <= '9' {
        (c as int - '0' as int) as nat
    } else if 'a' <= c && c <= 'f' {
        (c as int - 'a' as int + 10) as nat
    } else {
        (c as int - 'A' as int + 10) as nat
    }
}

/// Whether every character of `s` is a base-16 digit.
pub open spec fn all_hex_digits(s: Seq<char>) -> bool {
    forall|i: int| 0 <= i < s.len() ==> is_hex_digit(#[trigger] s[i])
}

/// The byte that the two base-16 digits `s[i]`, `s[i + 1]` denote.
pub open spec fn hex_byte(s: Seq<char>, i: int) -> u8 {
    (16 * hex_digit_value(s[i]) + hex_digit_value(s[i + 1])) as u8
}

/// The color that a `#RRGGBB` word denotes: `#` followed by exactly six
/// base-16 digits, two for each of red, green and blue.
pub open spec fn hex_color(s: Seq<char>) -> Option<Rgb> {
    if s.len() == 7 && s[0] == '#' && all_hex_digits(s.drop_first()) {
        Some((hex_byte(s, 1), hex_byte(s, 3), hex_byte(s, 5)))
    } else {
        None
    }
}

fn is_hex_char(c: char) -> (b: bool)
    ensures
        b == is_hex_digit(c),
{
    ('0' <= c && c <= '9') || ('a' <= c && c <= 'f') || ('A' <= c && c <= 'F')
}

fn hex_char_value(c: char) -> (v: u8)
    requires
        is_hex_digit(c),
    ensures
        v == hex_digit_value(c),
        v < 16,
{
    if '0' <= c && c <= '9' {
        ((c as u32) - ('0' as u32)) as u8
    } else if 'a' <= c && c <= 'f' {
        ((c as u32) - ('a' as u32) + 10) as u8
    } else {
        ((c as u32) - ('A' as u32) + 10) as u8
    }
}

/// The color that the word `s` denotes in `#RRGGBB` notation.
pub fn hex_chars(s: &Vec<char>) -> (r: Option<Rgb>)
    ensures
        r == hex_color(s@),
{
    if s.len() != 7 || s[0] != '#' {
        return None;
    }
    for i in 1..7
        invariant
            s.len() == 7,
            forall|j: int| 1 <= j < i ==> is_hex_digit(#[trigger] s@[j]),
    {
        if !is_hex_char(s[i]) {
            assert(s@.drop_first()[i - 1] == s@[i as int]);
            return None;
        }
    }
    assert(all_hex_digits(s@.drop_first())) by {
        assert forall|j: int| 0 <= j < 6 implies is_hex_digit(#[trigger] s@.drop_first()[j]) by {
            assert(s@.drop_first()[j] == s@[j + 1]);
        }
    }
    let red = hex_char_value(s[1]) * 16 + hex_char_value(s[2]);
    let green = hex_char_value(s[3]) * 16 + hex_char_value(s[4]);
    let blue = hex_char_value(s[5]) * 16 + hex_char_value(s[6]);
    Some((red, green, blue))
}

/// The color that `s` denotes in `#RRGGBB` notation, or `None`.
pub fn hex(s: &str) -> (r: Option<Rgb>)
    ensures
        r == hex_color(s@),
{
    let cs = chars_of(s);
    hex_chars(&cs)
}

/// The lowercase base-16 digit for `d < 16`.
pub open spec fn hex_digit_char(d: nat) -> char {
    if d < 10 {
        ('0' as nat + d) as char
    } else {
        ('a' as nat + d - 10) as char
    }
}

/// The `#rrggbb` notation of the color `c`, in lowercase digits.
pub open spec fn hex_text(c: Rgb) -> Seq<char> {
    seq![
        '#',
        hex_digit_char(c.0 as nat / 16),
        hex_digit_char(c.0 as nat % 16),
        hex_digit_char(c.1 as nat / 16),
        hex_digit_char(c.1 as nat % 16),
        hex_digit_char(c.2 as nat / 16),
        hex_digit_char(c.2 as nat % 16),
    ]
}

proof fn lemma_hex_digit_char(d: nat)
    requires
        d < 16,
    ensures
        is_hex_digit(hex_digit_char(d)),
        hex_digit_value(hex_digit_char(d)) == d,
{
}

/// A word denotes a color exactly when it is `#` followed by six base-16
/// digits (no sign, no other length), and then each byte is read from its
/// two digits, the first one counting sixteen times.
pub proof fn lemma_hex_accepts_six_digits(s: Seq<char>)
    ensures
        hex_color(s) is Some <==> (s.len() == 7 && s[0] == '#' && forall|i: int|
            1 <= i < 7 ==> is_hex_digit(#[trigger] s[i])),
        hex_color(s) matches Some(c) ==> c.0 as nat == 16 * hex_digit_value(s[1])
            + hex_digit_value(s[2]) && c.1 as nat == 16 * hex_digit_value(s[3])
            + hex_digit_value(s[4]) && c.2 as nat == 16 * hex_digit_value(s[5])
            + hex_digit_value(s[6]),
{
    if s.len() == 7 && s[0] == '#' {
        if forall|i: int| 1 <= i < 7 ==> is_hex_digit(#[trigger] s[i]) {
            assert forall|j: int| 0 <= j < 6 implies is_hex_digit(#[trigger] s.drop_first()[j]) by {
                assert(s.drop_first()[j] == s[j + 1]);
            }
            assert forall|i: int| 1 <= i < 7 implies hex_digit_value(#[trigger] s[i]) < 16 by {}
        }
        if all_hex_digits(s.drop_first()) {
            assert forall|i: int| 1 <= i < 7 implies is_hex_digit(#[trigger] s[i]) by {
                assert(s.drop_first()[i - 1] == s[i]);
            }
        }
    }
}

/// Reading the `#rrggbb` notation of any color gives that color back.
pub proof fn lemma_hex_reads_back(c: Rgb)
    ensures
        hex_color(hex_text(c)) == Some(c),
{
    let t = hex_text(c);
    let d = seq![
        c.0 as nat / 16,
        c.0 as nat % 16,
        c.1 as nat / 16,
        c.1 as nat % 16,
        c.2 as nat / 16,
        c.2 as nat % 16,
    ];
    assert forall|i: int| 0 <= i < 6 implies is_hex_digit(#[trigger] t.drop_first()[i])
        && hex_digit_value(t[i + 1]) == d[i] by {
        assert(t.drop_first()[i] == t[i + 1]);
        assert(t[i + 1] == hex_digit_char(d[i]));
        lemma_hex_digit_char(d[i]);
    }
    assert(hex_digit_value(t[1]) == d[0] && hex_digit_value(t[2]) == d[1]);
    assert(hex_digit_value(t[3]) == d[2] && hex_digit_value(t[4]) == d[3]);
    assert(hex_digit_value(t[5]) == d[4] && hex_digit_value(t[6]) == d[5]);
}

/// `s` with each non-overlapping occurrence of `p`, found from left to
/// right, replaced by `r` (`str::replace`).
pub open spec fn replace_seq(s: Seq<char>, p: Seq<char>, r: Seq<char>) -> Seq<char>
    decreases s.len(),
{
    if s.len() == 0 {
        s
    } else if p.len() > 0 && p.len() <= s.len() && s.take(p.len() as int) == p {
        r + replace_seq(s.skip(p.len() as int), p, r)
    } else {
        seq![s[0]] + replace_seq(s.drop_first(), p, r)
    }
}

/// The inline color tag number `k`: `{c}`, `{y}`, `{g}`, `{r}`, `{m}`,
/// `{w}`, `{0}`.
pub open spec fn tag_seq(k: int) -> Seq<char> {
    if k == 0 {
        seq!['{', 'c', '}']
    } else if k == 1 {
        seq!['{', 'y', '}']
    } else if k == 2 {
        seq!['{', 'g', '}']
    } else if k == 3 {
        seq!['{', 'r', '}']
    } else if k == 4 {
        seq!['{', 'm', '}']
    } else if k == 5 {
        seq!['{', 'w', '}']
    } else {
        seq!['{', '0', '}']
    }
}

/// The terminal code that tag number `k` stands for: cyan, yellow, green,
/// red, magenta, bright white, and the reset code.
pub open spec fn code_seq(k: int) -> Seq<char> {
    if k == 0 {
        seq!['\u{1b}', '[', '3', '6', 'm']
    } else if k == 1 {
        seq!['\u{1b}', '[', '3', '3', 'm']
    } else if k == 2 {
        seq!['\u{1b}', '[', '3', '2', 'm']
    } else if k == 3 {
        seq!['\u{1b}', '[', '3', '1', 'm']
    } else if k == 4 {
        seq!['\u{1b}', '[', '3', '5', 'm']
    } else if k == 5 {
        seq!['\u{1b}', '[', '9', '7', 'm']
    } else {
        seq!['\u{1b}', '[', '0', 'm']
    }
}

/// `s` after replacing the tags `k`, `k + 1`, ..., 6, one after the other.
pub open spec fn colorize_from(s: Seq<char>, k: int) -> Seq<char>
    decreases 7 - k,
{
    if k >= 7 {
        s
    } else {
        colorize_from(replace_seq(s, tag_seq(k), code_seq(k)), k + 1)
    }
}

/// `s` with every inline color tag replaced by its terminal code.
pub open spec fn colorize_seq(s: Seq<char>) -> Seq<char> {
    colorize_from(s, 0)
}

fn tag_chars(k: usize) -> (v: Vec<char>)
    requires
        k < 7,
    ensures
        v@ == tag_seq(k as int),
{
    if k == 0 {
        vec!['{', 'c', '}']
    } else if k == 1 {
        vec!['{', 'y', '}']
    } else if k == 2 {
        vec!['{', 'g', '}']
    } else if k == 3 {
        vec!['{', 'r', '}']
    } else if k == 4 {
        vec!['{', 'm', '}']
    } else if k == 5 {
        vec!['{', 'w', '}']
    } else {
        vec!['{', '0', '}']
    }
}

fn code_chars(k: usize) -> (v: Vec<char>)
    requires
        k < 7,
    ensures
        v@ == code_seq(k as int),
{
    if k == 0 {
        vec!['\u{1b}', '[', '3', '6', 'm']
    } else if k == 1 {
        vec!['\u{1b}', '[', '3', '3', 'm']
    } else if k == 2 {
        vec!['\u{1b}', '[', '3', '2', 'm']
    } else if k == 3 {
        vec!['\u{1b}', '[', '3', '1', 'm']
    } else if k == 4 {
        vec!['\u{1b}', '[', '3', '5', 'm']
    } else if k == 5 {
        vec!['\u{1b}', '[', '9', '7', 'm']
    } else {
        vec!['\u{1b}', '[', '0', 'm']
    }
}

/// Whether `p` occurs in `s` at index `i`.
fn matches_at(s: &Vec<char>, i: usize, p: &Vec<char>) -> (b: bool)
    requires
        i <= s.len(),
    ensures
        b == (i + p.len() <= s.len() && s@.subrange(i as int, i + p.len()) == p@),
{
    let m = p.len();
    if m > s.len() - i {
        return false;
    }
    for j in 0..m
        invariant
            m == p.len(),
            i + m <= s.len(),
            forall|k: int| 0 <= k < j ==> s@[i + k] == p@[k],
    {
        if s[i + j] != p[j] {
            proof {
                assert(s@.subrange(i as int, i + m)[j as int] != p@[j as int]);
            }
            return false;
        }
    }
    proof {
        assert(s@.subrange(i as int, i + m) =~= p@);
    }
    true
}

/// `s` with each occurrence of `p` replaced by `r` (`str::replace`).
pub fn replace_chars(s: &Vec<char>, p: &Vec<char>, r: &Vec<char>) -> (out: Vec<char>)
    requires
        p.len() > 0,
    ensures
        out@ == replace_seq(s@, p@, r@),
{
    let n = s.len();
    let m = p.len();
    let mut out: Vec<char> = Vec::new();
    let mut i: usize = 0;
    assert(s@.skip(0) =~= s@);
    while i < n
        invariant
            n == s.len(),
            m == p.len() > 0,
            i <= n,
            replace_seq(s@, p@, r@) == out@ + replace_seq(s@.skip(i as int), p@, r@),
        decreases n - i,
    {
        let ghost t = s@.skip(i as int);
        if matches_at(s, i, p) {
            let ghost before = out@;
            let mut k: usize = 0;
            while k < r.len()
                invariant
                    out@ == before + r@.take(k as int),
                    k <= r.len(),
                decreases r.len() - k,
            {
                out.push(r[k]);
                proof {
                    assert(r@.take(k + 1) =~= r@.take(k as int).push(r@[k as int]));
                }
                k += 1;
            }
            proof {
                assert(r@.take(r.len() as int) =~= r@);
                assert(t.take(m as int) =~= s@.subrange(i as int, i + m));
                assert(t.skip(m as int) =~= s@.skip(i + m));
                assert(before + (r@ + replace_seq(t.skip(m as int), p@, r@)) =~= out@
                    + replace_seq(s@.skip(i + m), p@, r@));
            }
            i = i + m;
        } else {
            let ghost before = out@;
            out.push(s[i]);
            proof {
                if m <= t.len() {
                    assert(t.take(m as int) =~= s@.subrange(i as int, i + m));
                }
                assert(t.drop_first() =~= s@.skip(i + 1));
                assert(before + (seq![t[0]] + replace_seq(t.drop_first(), p@, r@)) =~= out@
                    + replace_seq(s@.skip(i + 1), p@, r@));
            }
            i = i + 1;
        }
    }
    proof {
        assert(s@.skip(n as int) =~= Seq::<char>::empty());
        assert(out@ + Seq::<char>::empty() =~= out@);
    }
    out
}

/// `s` with every inline color tag replaced by its terminal code.
pub fn colorize_chars(s: &Vec<char>) -> (r: Vec<char>)
    ensures
        r@ == colorize_seq(s@),
{
    let mut cur = sub_chars(s, 0, s.len());
    proof {
        assert(cur@ =~= s@);
    }
    for k in 0..7
        invariant
            colorize_seq(s@) == colorize_from(cur@, k as int),
    {
        let t = tag_chars(k);
        let c = code_chars(k);
        cur = replace_chars(&cur, &t, &c);
    }
    cur
}

/// `s` with every inline color tag (`{c}` cyan, `{y}` yellow, `{g}` green,
/// `{r}` red, `{m}` magenta, `{w}` white, `{0}` default) replaced by its
/// terminal code.
pub fn colorize(s: &str) -> (r: String)
    ensures
        r@ == colorize_seq(s@),
{
    let cs = chars_of(s);
    let out = colorize_chars(&cs);
    string_of(&out)
}

/// Whether `p` occurs in `s` at index `i`.
pub open spec fn occurs_at(s: Seq<char>, p: Seq<char>, i: int) -> bool {
    0 <= i && i + p.len() <= s.len() && s.subrange(i, i + p.len()) == p
}

/// Whether `p` occurs somewhere in `s`.
pub open spec fn occurs(s: Seq<char>, p: Seq<char>) -> bool {
    exists|i: int| occurs_at(s, p, i)
}

/// Whether some inline color tag occurs in `s`.
pub open spec fn has_tag(s: Seq<char>) -> bool {
    exists|k: int| 0 <= k < 7 && occurs(s, #[trigger] tag_seq(k))
}

proof fn lemma_occurs_in_suffix(s: Seq<char>, p: Seq<char>, n: int)
    requires
        0 <= n <= s.len(),
        occurs(s.skip(n), p),
    ensures
        occurs(s, p),
{
    let i = choose|i: int| occurs_at(s.skip(n), p, i);
    assert(s.skip(n).subrange(i, i + p.len()) =~= s.subrange(i + n, i + n + p.len()));
    assert(occurs_at(s, p, i + n));
}

proof fn lemma_replace_absent(s: Seq<char>, p: Seq<char>, r: Seq<char>)
    requires
        p.len() > 0,
        !occurs(s, p),
    ensures
        replace_seq(s, p, r) == s,
    decreases s.len(),
{
    if s.len() > 0 {
        if p.len() <= s.len() && s.take(p.len() as int) == p {
            assert(s.subrange(0, p.len() as int) =~= s.take(p.len() as int));
            assert(occurs_at(s, p, 0));
        }
        if occurs(s.drop_first(), p) {
            lemma_occurs_in_suffix(s, p, 1);
        }
        lemma_replace_absent(s.drop_first(), p, r);
        assert(seq![s[0]] + s.drop_first() =~= s);
    }
}

proof fn lemma_replace_head(t: Seq<char>, p: Seq<char>, r: Seq<char>)
    requires
        t.len() > 0,
        p.len() > 0,
        r.len() > 0,
    ensures
        replace_seq(t, p, r).len() > 0,
        replace_seq(t, p, r)[0] == if p.len() <= t.len() && t.take(p.len() as int) == p {
            r[0]
        } else {
            t[0]
        },
{
}

/// Replacing the tag-shaped pattern `p` by `r`, which holds no brace and
/// does not begin with a letter of a tag, leaves no occurrence of `p` and
/// creates no occurrence of another tag-shaped pattern `q`.
proof fn lemma_replace_leaves_no_tag(s: Seq<char>, p: Seq<char>, r: Seq<char>, q: Seq<char>)
    requires
        p.len() == 3 && p[0] == '{' && p[2] == '}',
        q.len() == 3 && q[0] == '{' && q[2] == '}',
        r.len() >= 1,
        forall|i: int| 0 <= i < r.len() ==> r[i] != '{',
        r[0] != q[1] && r[0] != '}',
        q == p || !occurs(s, q),
    ensures
        !occurs(replace_seq(s, p, r), q),
    decreases s.len(),
{
    let out = replace_seq(s, p, r);
    if s.len() == 0 {
        return;
    }
    if q != p && occurs(s.skip(1), q) {
        lemma_occurs_in_suffix(s, q, 1);
    }
    if p.len() <= s.len() && s.take(3) == p {
        let t = s.skip(3);
        if q != p && occurs(t, q) {
            lemma_occurs_in_suffix(s, q, 3);
        }
        lemma_replace_leaves_no_tag(t, p, r, q);
        let o2 = replace_seq(t, p, r);
        assert(out == r + o2);
        if occurs(out, q) {
            let i = choose|i: int| occurs_at(out, q, i);
            assert(out.subrange(i, i + 3)[0] == out[i]);
            if i < r.len() {
                assert(out[i] == r[i]);
            } else {
                assert(out.subrange(i, i + 3) =~= o2.subrange(i - r.len(), i - r.len() + 3));
                assert(occurs_at(o2, q, i - r.len()));
            }
        }
    } else {
        let t = s.drop_first();
        lemma_replace_leaves_no_tag(t, p, r, q);
        let o2 = replace_seq(t, p, r);
        assert(out == seq![s[0]] + o2);
        if occurs(out, q) {
            let i = choose|i: int| occurs_at(out, q, i);
            if i >= 1 {
                assert(out.subrange(i, i + 3) =~= o2.subrange(i - 1, i + 2));
                assert(occurs_at(o2, q, i - 1));
            } else {
                let w = out.subrange(0, 3);
                assert(w[0] == s[0] && w[1] == o2[0] && w[2] == o2[1]);
                assert(w[1] == q[1]);
                lemma_replace_head(t, p, r);
                if p.len() <= t.len() && t.take(3) == p {
                    assert(o2[0] == r[0]);
                    assert(false);
                }
                assert(o2[0] == t[0]);
                let u = t.drop_first();
                assert(o2 == seq![t[0]] + replace_seq(u, p, r));
                if u.len() == 0 {
                    assert(o2 =~= seq![t[0]]);
                    assert(false);
                }
                lemma_replace_head(u, p, r);
                assert(o2 == seq![t[0]] + replace_seq(u, p, r));
                assert(o2[1] == u[0]);
                assert(s.take(3) =~= q);
                assert(s.subrange(0, 3) =~= q);
                assert(occurs_at(s, q, 0));
            }
        }
    }
}

proof fn lemma_tag_facts(k: int)
    requires
        0 <= k < 7,
    ensures
        tag_seq(k).len() == 3 && tag_seq(k)[0] == '{' && tag_seq(k)[2] == '}',
        tag_seq(k)[1] != '\u{1b}',
        code_seq(k).len() >= 1 && code_seq(k)[0] == '\u{1b}',
        forall|i: int| 0 <= i < code_seq(k).len() ==> code_seq(k)[i] != '{',
{
}

/// After `colorize`, no inline color tag is left in the text.
pub proof fn lemma_colorize_leaves_no_tag(s: Seq<char>)
    ensures
        !has_tag(colorize_seq(s)),
{
    lemma_colorize_from_leaves_no_tag(s, 0);
}

proof fn lemma_colorize_from_leaves_no_tag(s: Seq<char>, k: int)
    requires
        0 <= k <= 7,
        forall|j: int| 0 <= j < k ==> !occurs(s, #[trigger] tag_seq(j)),
    ensures
        !has_tag(colorize_from(s, k)),
    decreases 7 - k,
{
    if k >= 7 {
        assert forall|j: int| 0 <= j < 7 implies !occurs(colorize_from(s, k), #[trigger] tag_seq(j))
            by {}
    } else {
        let s2 = replace_seq(s, tag_seq(k), code_seq(k));
        lemma_tag_facts(k);
        assert forall|j: int| 0 <= j < k + 1 implies !occurs(s2, #[trigger] tag_seq(j)) by {
            lemma_tag_facts(j);
            lemma_replace_leaves_no_tag(s, tag_seq(k), code_seq(k), tag_seq(j));
        }
        lemma_colorize_from_leaves_no_tag(s2, k + 1);
    }
}

/// Text in which no inline color tag occurs comes out of `colorize`
/// unchanged.
pub proof fn lemma_colorize_plain(s: Seq<char>)
    requires
        !has_tag(s),
    ensures
        colorize_seq(s) == s,
{
    assert forall|k: int| 0 <= k < 7 implies replace_seq(s, tag_seq(k), code_seq(k)) == s by {
        assert(!occurs(s, tag_seq(k)));
        lemma_replace_absent(s, tag_seq(k), code_seq(k));
    }
    assert(colorize_from(s, 7) == s);
    assert(colorize_from(s, 6) == s);
    assert(colorize_from(s, 5) == s);
    assert(colorize_from(s, 4) == s);
    assert(colorize_from(s, 3) == s);
    assert(colorize_from(s, 2) == s);
    assert(colorize_from(s, 1) == s);
}

/// Colorizing twice gives what colorizing once gives.
pub proof fn lemma_colorize_idempotent(s: Seq<char>)
    ensures
        colorize_seq(colorize_seq(s)) == colorize_seq(s),
{
    lemma_colorize_leaves_no_tag(s);
    lemma_colorize_plain(colorize_seq(s));
}

/// Whether `c` is the letter of an inline color tag.
pub open spec fn is_tag_letter(c: char) -> bool {
    c == 'c' || c == 'y' || c == 'g' || c == 'r' || c == 'm' || c == 'w' || c == '0'
}

/// Whether an inline color tag runs across the boundary of `a` and `b` in
/// `a + b`: it begins in `a` and ends in `b`.
pub open spec fn tag_across(a: Seq<char>, b: Seq<char>) -> bool {
    exists|k: int, i: int|
        0 <= k < 7 && a.len() - 3 < i < a.len() && #[trigger] occurs_at(a + b, tag_seq(k), i)
}

/// The two shapes that a tag across the boundary of `a` and `b` can take:
/// `{` ending `a` with a letter and `}` starting `b`, or `{` and a letter
/// ending `a` with `}` starting `b`.
spec fn straddles(a: Seq<char>, b: Seq<char>) -> bool {
    ||| (a.len() >= 1 && a.last() == '{' && b.len() >= 2 && is_tag_letter(b[0]) && b[1] == '}')
    ||| (a.len() >= 2 && a[a.len() - 2] == '{' && is_tag_letter(a.last()) && b.len() >= 1 && b[0]
        == '}')
}

spec fn tag_of_letter(c: char) -> int {
    if c == 'c' {
        0
    } else if c == 'y' {
        1
    } else if c == 'g' {
        2
    } else if c == 'r' {
        3
    } else if c == 'm' {
        4
    } else if c == 'w' {
        5
    } else {
        6
    }
}

proof fn lemma_straddle_is_tag_across(a: Seq<char>, b: Seq<char>)
    requires
        straddles(a, b),
    ensures
        tag_across(a, b),
{
    let s = a + b;
    if a.len() >= 1 && a.last() == '{' && b.len() >= 2 && is_tag_letter(b[0]) && b[1] == '}' {
        let k = tag_of_letter(b[0]);
        let i = a.len() - 1;
        assert(s.subrange(i, i + 3) =~= tag_seq(k));
        assert(occurs_at(s, tag_seq(k), i));
    } else {
        let k = tag_of_letter(a.last());
        let i = a.len() - 2;
        assert(s.subrange(i, i + 3) =~= tag_seq(k));
        assert(occurs_at(s, tag_seq(k), i));
    }
}

proof fn lemma_straddles_suffix(a: Seq<char>, b: Seq<char>, n: int)
    requires
        0 <= n <= a.len(),
        !straddles(a, b),
    ensures
        !straddles(a.skip(n), b),
{
    let t = a.skip(n);
    if t.len() >= 1 {
        assert(t.last() == a.last());
    }
    if t.len() >= 2 {
        assert(t[t.len() - 2] == a[a.len() - 2]);
    }
}

proof fn lemma_replace_len(t: Seq<char>, p: Seq<char>, r: Seq<char>)
    requires
        p.len() > 0,
        r.len() >= p.len(),
    ensures
        replace_seq(t, p, r).len() >= t.len(),
    decreases t.len(),
{
    if t.len() > 0 {
        if p.len() <= t.len() && t.take(p.len() as int) == p {
            lemma_replace_len(t.skip(p.len() as int), p, r);
        } else {
            lemma_replace_len(t.drop_first(), p, r);
        }
    }
}

proof fn lemma_replace_concat(a: Seq<char>, b: Seq<char>, p: Seq<char>, r: Seq<char>)
    requires
        p.len() == 3 && p[0] == '{' && is_tag_letter(p[1]) && p[2] == '}',
        !straddles(a, b),
    ensures
        replace_seq(a + b, p, r) == replace_seq(a, p, r) + replace_seq(b, p, r),
    decreases a.len(),
{
    let s = a + b;
    if a.len() == 0 {
        assert(s =~= b);
        assert(replace_seq(a, p, r) =~= Seq::<char>::empty());
        assert(replace_seq(a, p, r) + replace_seq(b, p, r) =~= replace_seq(b, p, r));
        return;
    }
    if 3 <= s.len() && s.take(3) == p {
        assert(s.take(3)[0] == s[0] && s.take(3)[1] == s[1] && s.take(3)[2] == s[2]);
        if a.len() == 1 {
            assert(a.last() == s[0] && b[0] == s[1] && b[1] == s[2]);
        } else if a.len() == 2 {
            assert(a[0] == s[0] && a.last() == s[1] && b[0] == s[2]);
        }
        assert(a.len() >= 3);
        assert(a.take(3) =~= s.take(3));
        assert(s.skip(3) =~= a.skip(3) + b);
        lemma_straddles_suffix(a, b, 3);
        lemma_replace_concat(a.skip(3), b, p, r);
        assert(r + (replace_seq(a.skip(3), p, r) + replace_seq(b, p, r)) =~= (r + replace_seq(
            a.skip(3),
            p,
            r,
        )) + replace_seq(b, p, r));
    } else {
        if 3 <= a.len() {
            assert(a.take(3) =~= s.take(3));
        }
        assert(s.drop_first() =~= a.drop_first() + b);
        lemma_straddles_suffix(a, b, 1);
        assert(a.skip(1) =~= a.drop_first());
        lemma_replace_concat(a.drop_first(), b, p, r);
        assert(seq![s[0]] + (replace_seq(a.drop_first(), p, r) + replace_seq(b, p, r)) =~= (seq![
            a[0],
        ] + replace_seq(a.drop_first(), p, r)) + replace_seq(b, p, r));
    }
}

/// What the end of `y`, the result of a replacement in `a`, says about the
/// end of `a`: a `{` at one of its last two places comes from `a`.
spec fn tail_from(a: Seq<char>, y: Seq<char>) -> bool {
    &&& (y.len() >= 1 && y.last() == '{') ==> (a.len() >= 1 && a.last() == '{')
    &&& (y.len() >= 2 && y[y.len() - 2] == '{') ==> (a.len() >= 2 && a[a.len() - 2] == '{'
        && y.last() == a.last())
}

proof fn lemma_replace_tail(a: Seq<char>, p: Seq<char>, r: Seq<char>)
    requires
        p.len() == 3,
        r.len() >= 3,
        forall|i: int| 0 <= i < r.len() ==> r[i] != '{',
    ensures
        tail_from(a, replace_seq(a, p, r)),
    decreases a.len(),
{
    if a.len() == 0 {
        return;
    }
    let out = replace_seq(a, p, r);
    if p.len() <= a.len() && a.take(3) == p {
        let t = a.skip(3);
        let y = replace_seq(t, p, r);
        lemma_replace_tail(t, p, r);
        lemma_replace_len(t, p, r);
        assert(out == r + y);
        if y.len() == 0 {
            assert(out =~= r);
            assert(out.last() == r[r.len() - 1]);
            assert(out[out.len() - 2] == r[r.len() - 2]);
        } else if y.len() == 1 {
            assert(out.last() == y[0]);
            assert(out[out.len() - 2] == r[r.len() - 1]);
            if y.last() == '{' {
                assert(t.last() == a.last());
            }
        } else {
            assert(out.last() == y.last());
            assert(out[out.len() - 2] == y[y.len() - 2]);
            if y.last() == '{' {
                assert(t.last() == a.last());
            }
            if y[y.len() - 2] == '{' {
                assert(t.last() == a.last());
                assert(t[t.len() - 2] == a[a.len() - 2]);
            }
        }
    } else {
        let t = a.drop_first();
        let y = replace_seq(t, p, r);
        lemma_replace_tail(t, p, r);
        lemma_replace_len(t, p, r);
        assert(out == seq![a[0]] + y);
        if y.len() == 0 {
            assert(t.len() == 0);
            assert(out =~= a);
        } else if y.len() == 1 {
            assert(t.len() == 1);
            assert(y == seq![t[0]] + replace_seq(t.drop_first(), p, r));
            assert(t.drop_first().len() == 0);
            assert(y =~= t);
            assert(out =~= a);
        } else {
            assert(out.last() == y.last());
            assert(out[out.len() - 2] == y[y.len() - 2]);
            if y.last() == '{' {
                assert(t.last() == a.last());
            }
            if y[y.len() - 2] == '{' {
                assert(t.last() == a.last());
                assert(t[t.len() - 2] == a[a.len() - 2]);
            }
        }
    }
}

proof fn lemma_replace_keeps_apart(a: Seq<char>, b: Seq<char>, p: Seq<char>, r: Seq<char>)
    requires
        p.len() == 3 && p[0] == '{',
        r.len() >= 3,
        r[0] == '\u{1b}',
        forall|i: int| 0 <= i < r.len() ==> r[i] != '{',
        !straddles(a, b),
    ensures
        !straddles(replace_seq(a, p, r), replace_seq(b, p, r)),
{
    let x = replace_seq(a, p, r);
    let y = replace_seq(b, p, r);
    lemma_replace_tail(a, p, r);
    if y.len() >= 1 {
        assert(b.len() >= 1);
        lemma_replace_head(b, p, r);
        if 3 <= b.len() && b.take(3) == p {
            assert(y[0] == r[0]);
        } else {
            assert(y[0] == b[0]);
            assert(y == seq![b[0]] + replace_seq(b.drop_first(), p, r));
            if y.len() >= 2 {
                let u = b.drop_first();
                assert(u.len() >= 1);
                lemma_replace_head(u, p, r);
                assert(y[1] == replace_seq(u, p, r)[0]);
                if 3 <= u.len() && u.take(3) == p {
                    assert(y[1] == r[0]);
                } else {
                    assert(y[1] == b[1]);
                }
            }
        }
    }
}

proof fn lemma_tag_code_facts(k: int)
    requires
        0 <= k < 7,
    ensures
        tag_seq(k).len() == 3 && tag_seq(k)[0] == '{' && is_tag_letter(tag_seq(k)[1])
            && tag_seq(k)[2] == '}',
        code_seq(k).len() >= 3 && code_seq(k)[0] == '\u{1b}',
        forall|i: int| 0 <= i < code_seq(k).len() ==> code_seq(k)[i] != '{',
{
}

proof fn lemma_colorize_from_concat(a: Seq<char>, b: Seq<char>, k: int)
    requires
        0 <= k <= 7,
        !straddles(a, b),
    ensures
        colorize_from(a + b, k) == colorize_from(a, k) + colorize_from(b, k),
    decreases 7 - k,
{
    if k < 7 {
        lemma_tag_code_facts(k);
        lemma_replace_concat(a, b, tag_seq(k), code_seq(k));
        lemma_replace_keeps_apart(a, b, tag_seq(k), code_seq(k));
        lemma_colorize_from_concat(
            replace_seq(a, tag_seq(k), code_seq(k)),
            replace_seq(b, tag_seq(k), code_seq(k)),
            k + 1,
        );
    }
}

/// Text can be colorized in pieces: when no tag runs across the boundary of
/// `a` and `b`, colorizing `a` followed by `b` gives colorized `a` followed
/// by colorized `b`.
pub proof fn lemma_colorize_concat(a: Seq<char>, b: Seq<char>)
    requires
        !tag_across(a, b),
    ensures
        colorize_seq(a + b) == colorize_seq(a) + colorize_seq(b),
{
    if straddles(a, b) {
        lemma_straddle_is_tag_across(a, b);
    }
    lemma_colorize_from_concat(a, b, 0);
}

} // verus!
