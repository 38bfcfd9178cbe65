//! Character-level helpers shared by the story parser and the renderer:
//! whitespace, trimming, splitting into lines and words, and conversions
//! between `&str`/`String` and `Vec<char>`.
use vstd::prelude::*;

verus! {

/// The characters of the Unicode `White_Space` property, which is what
/// `char::is_whitespace` (and therefore `str::trim` and
/// `str::split_whitespace`) accepts.
pub open spec fn is_ws(c: char) -> bool {
    ||| ('\u{9}' <= c && c <= '\u{d}')
    ||| c == ' '
    ||| c == '\u{85}'
    ||| c == '\u{a0}'
    ||| c == '\u{1680}'
    ||| ('\u{2000}' <= c && c <= '\u{200a}')
    ||| c == '\u{2028}'
    ||| c == '\u{2029}'
    ||| c == '\u{202f}'
    ||| c == '\u{205f}'
    ||| c == '\u{3000}'
}

/// Whether `c` is a whitespace character.
pub fn is_space(c: char) -> (b: bool)
    ensures
        b == is_ws(c),
{
    ('\u{9}' <= c && c <= '\u{d}') || c == ' ' || c == '\u{85}' || c == '\u{a0}' || c
        == '\u{1680}' || ('\u{2000}' <= c && c <= '\u{200a}') || c == '\u{2028}' || c
        == '\u{2029}' || c == '\u{202f}' || c == '\u{205f}' || c == '\u{3000}'
}

/// `s` without its leading whitespace.
pub open spec fn trim_start_seq(s: Seq<char>) -> Seq<char>
    decreases s.len(),
{
    if s.len() > 0 && is_ws(s[0]) {
        trim_start_seq(s.drop_first())
    } else {
        s
    }
}

/// `s` without its trailing whitespace.
pub open spec fn trim_end_seq(s: Seq<char>) -> Seq<char>
    decreases s.len(),
{
    if s.len() > 0 && is_ws(s.last()) {
        trim_end_seq(s.drop_last())
    } else {
        s
    }
}

/// `s` without leading and trailing whitespace.
pub open spec fn trim_seq(s: Seq<char>) -> Seq<char> {
    trim_end_seq(trim_start_seq(s))
}

/// `s` with its last character dropped when that character is a carriage return.
pub open spec fn strip_cr(s: Seq<char>) -> Seq<char> {
    if s.len() > 0 && s.last() == '\r' {
        s.drop_last()
    } else {
        s
    }
}

/// The lines of `s[i..]`, where `cur` holds the part of the current line
/// read before `i`: a line ends at `\n` (a `\r` just before it is dropped),
/// and the last line is kept only when it is not empty.
pub open spec fn lines_from(s: Seq<char>, i: int, cur: Seq<char>) -> Seq<Seq<char>>
    decreases s.len() - i,
{
    if i >= s.len() {
        if cur.len() > 0 {
            seq![cur]
        } else {
            seq![]
        }
    } else if s[i] == '\n' {
        seq![strip_cr(cur)] + lines_from(s, i + 1, seq![])
    } else {
        lines_from(s, i + 1, cur.push(s[i]))
    }
}

/// The lines of `s`, as `str::lines` yields them.
pub open spec fn lines_seq(s: Seq<char>) -> Seq<Seq<char>> {
    lines_from(s, 0, seq![])
}

/// The words of `s[i..]` (maximal runs of non-whitespace), where `cur`
/// holds the part of the current word read before `i`.
pub open spec fn words_from(s: Seq<char>, i: int, cur: Seq<char>) -> Seq<Seq<char>>
    decreases s.len() - i,
{
    if i >= s.len() {
        if cur.len() > 0 {
            seq![cur]
        } else {
            seq![]
        }
    } else if is_ws(s[i]) {
        (if cur.len() > 0 {
            seq![cur]
        } else {
            seq![]
        }) + words_from(s, i + 1, seq![])
    } else {
        words_from(s, i + 1, cur.push(s[i]))
    }
}

/// The words of `s`, as `str::split_whitespace` yields them.
pub open spec fn words_seq(s: Seq<char>) -> Seq<Seq<char>> {
    words_from(s, 0, seq![])
}

proof fn lemma_lines_shift(x: Seq<char>, y: Seq<char>, j: int, cur: Seq<char>)
    requires
        0 <= j <= y.len(),
    ensures
        lines_from(x + y, x.len() + j, cur) == lines_from(y, j, cur),
    decreases y.len() - j,
{
    if j < y.len() {
        assert((x + y)[x.len() + j] == y[j]);
        if y[j] == '\n' {
            lemma_lines_shift(x, y, j + 1, seq![]);
        } else {
            lemma_lines_shift(x, y, j + 1, cur.push(y[j]));
        }
    }
}

proof fn lemma_lines_concat_from(x: Seq<char>, y: Seq<char>, i: int, cur: Seq<char>)
    requires
        0 <= i < x.len(),
        x.last() == '\n',
    ensures
        lines_from(x + y, i, cur) == lines_from(x, i, cur) + lines_seq(y),
    decreases x.len() - i,
{
    assert((x + y)[i] == x[i]);
    if x[i] == '\n' {
        if i + 1 < x.len() {
            lemma_lines_concat_from(x, y, i + 1, seq![]);
        } else {
            lemma_lines_shift(x, y, 0, seq![]);
            assert(lines_from(x, i + 1, seq![]) =~= Seq::<Seq<char>>::empty());
        }
        assert(seq![strip_cr(cur)] + (lines_from(x, i + 1, seq![]) + lines_seq(y)) =~= (seq![
            strip_cr(cur),
        ] + lines_from(x, i + 1, seq![])) + lines_seq(y));
    } else {
        lemma_lines_concat_from(x, y, i + 1, cur.push(x[i]));
    }
}

/// When `x` ends with a line break, the lines of `x` followed by `y` are the
/// lines of `x` followed by the lines of `y`.
pub proof fn lemma_lines_concat(x: Seq<char>, y: Seq<char>)
    requires
        x.len() > 0,
        x.last() == '\n',
    ensures
        lines_seq(x + y) == lines_seq(x) + lines_seq(y),
{
    lemma_lines_concat_from(x, y, 0, seq![]);
}

/// The lines `ls`, each followed by a line break.
pub open spec fn joined_lines(ls: Seq<Seq<char>>) -> Seq<char>
    decreases ls.len(),
{
    if ls.len() == 0 {
        seq![]
    } else {
        ls[0].push('\n') + joined_lines(ls.drop_first())
    }
}

/// Whether `l` can stand as one line of a text: it holds no line break and
/// does not end with a carriage return.
pub open spec fn simple_line(l: Seq<char>) -> bool {
    !l.contains('\n') && (l.len() == 0 || l.last() != '\r')
}

proof fn lemma_lines_one_from(l: Seq<char>, i: int)
    requires
        0 <= i <= l.len(),
        simple_line(l),
    ensures
        lines_from(l.push('\n'), i, l.take(i)) == seq![l],
    decreases l.len() - i,
{
    let x = l.push('\n');
    if i < l.len() {
        assert(x[i] == l[i]);
        if l[i] == '\n' {
            assert(l.contains('\n'));
        }
        assert(l.take(i).push(l[i]) =~= l.take(i + 1));
        lemma_lines_one_from(l, i + 1);
    } else {
        assert(l.take(i) =~= l);
        assert(x[i] == '\n');
        assert(strip_cr(l) == l);
        assert(lines_from(x, i + 1, seq![]) =~= Seq::<Seq<char>>::empty());
        assert(seq![strip_cr(l)] + lines_from(x, i + 1, seq![]) =~= seq![l]);
    }
}

/// Lines written one after the other, each followed by a line break, are
/// read back as those lines.
pub proof fn lemma_lines_of_joined(ls: Seq<Seq<char>>)
    requires
        forall|k: int| 0 <= k < ls.len() ==> simple_line(#[trigger] ls[k]),
    ensures
        lines_seq(joined_lines(ls)) == ls,
    decreases ls.len(),
{
    if ls.len() == 0 {
        assert(lines_seq(joined_lines(ls)) =~= ls);
    } else {
        let x = ls[0].push('\n');
        let rest = ls.drop_first();
        assert(forall|k: int| 0 <= k < rest.len() ==> rest[k] == ls[k + 1]);
        lemma_lines_of_joined(rest);
        assert(simple_line(ls[0]));
        assert(ls[0].take(0) =~= Seq::<char>::empty());
        lemma_lines_one_from(ls[0], 0);
        lemma_lines_concat(x, joined_lines(rest));
        assert(seq![ls[0]] + rest =~= ls);
    }
}

/// Text without whitespace is its own trim.
pub proof fn lemma_trim_solid(s: Seq<char>)
    requires
        forall|i: int| 0 <= i < s.len() ==> !is_ws(#[trigger] s[i]),
    ensures
        trim_seq(s) == s,
{
    if s.len() > 0 {
        assert(!is_ws(s[0]));
        assert(trim_start_seq(s) == s);
        assert(!is_ws(s[s.len() - 1]));
    }
}

/// Trimming keeps no character that the text did not hold.
pub proof fn lemma_trim_keeps_out(s: Seq<char>, c: char)
    requires
        !s.contains(c),
    ensures
        !trim_seq(s).contains(c),
{
    lemma_trim_start_keeps_out(s, c);
    lemma_trim_end_keeps_out(trim_start_seq(s), c);
}

proof fn lemma_trim_start_keeps_out(s: Seq<char>, c: char)
    requires
        !s.contains(c),
    ensures
        !trim_start_seq(s).contains(c),
    decreases s.len(),
{
    if s.len() > 0 && is_ws(s[0]) {
        if s.drop_first().contains(c) {
            let j = choose|j: int| 0 <= j < s.drop_first().len() && s.drop_first()[j] == c;
            assert(s[j + 1] == c);
        }
        lemma_trim_start_keeps_out(s.drop_first(), c);
    }
}

proof fn lemma_trim_end_keeps_out(s: Seq<char>, c: char)
    requires
        !s.contains(c),
    ensures
        !trim_end_seq(s).contains(c),
    decreases s.len(),
{
    if s.len() > 0 && is_ws(s.last()) {
        if s.drop_last().contains(c) {
            let j = choose|j: int| 0 <= j < s.drop_last().len() && s.drop_last()[j] == c;
            assert(s[j] == c);
        }
        lemma_trim_end_keeps_out(s.drop_last(), c);
    }
}

proof fn lemma_trim_start_empty(s: Seq<char>)
    ensures
        trim_start_seq(s).len() == 0 <==> forall|i: int| 0 <= i < s.len() ==> is_ws(#[trigger] s[i]),
        trim_start_seq(s).len() > 0 ==> !is_ws(trim_start_seq(s)[0]),
        forall|i: int|
            0 <= i < trim_start_seq(s).len() ==> exists|j: int|
                0 <= j < s.len() && s[j] == #[trigger] trim_start_seq(s)[i],
    decreases s.len(),
{
    if s.len() > 0 && is_ws(s[0]) {
        let t = s.drop_first();
        lemma_trim_start_empty(t);
        assert forall|i: int| 0 <= i < trim_start_seq(s).len() implies exists|j: int|
            0 <= j < s.len() && s[j] == #[trigger] trim_start_seq(s)[i] by {
            let j = choose|j: int| 0 <= j < t.len() && t[j] == trim_start_seq(t)[i];
            assert(s[j + 1] == t[j]);
        }
        if forall|i: int| 0 <= i < t.len() ==> is_ws(#[trigger] t[i]) {
            assert forall|i: int| 0 <= i < s.len() implies is_ws(#[trigger] s[i]) by {
                if i > 0 {
                    assert(s[i] == t[i - 1]);
                }
            }
        }
        if forall|i: int| 0 <= i < s.len() ==> is_ws(#[trigger] s[i]) {
            assert forall|i: int| 0 <= i < t.len() implies is_ws(#[trigger] t[i]) by {
                assert(t[i] == s[i + 1]);
            }
        }
    } else if s.len() > 0 {
        assert(!is_ws(s[0]));
        assert forall|i: int| 0 <= i < s.len() implies exists|j: int|
            0 <= j < s.len() && s[j] == #[trigger] trim_start_seq(s)[i] by {
            assert(s[i] == trim_start_seq(s)[i]);
        }
    }
}

proof fn lemma_trim_end_empty(s: Seq<char>)
    ensures
        trim_end_seq(s).len() == 0 <==> forall|i: int| 0 <= i < s.len() ==> is_ws(#[trigger] s[i]),
    decreases s.len(),
{
    if s.len() > 0 && is_ws(s.last()) {
        let t = s.drop_last();
        lemma_trim_end_empty(t);
        if forall|i: int| 0 <= i < t.len() ==> is_ws(#[trigger] t[i]) {
            assert forall|i: int| 0 <= i < s.len() implies is_ws(#[trigger] s[i]) by {
                if i < t.len() {
                    assert(s[i] == t[i]);
                }
            }
        }
        if forall|i: int| 0 <= i < s.len() ==> is_ws(#[trigger] s[i]) {
            assert forall|i: int| 0 <= i < t.len() implies is_ws(#[trigger] t[i]) by {
                assert(t[i] == s[i]);
            }
        }
    } else if s.len() > 0 {
        assert(!is_ws(s[s.len() - 1]));
    }
}

/// Text trims to nothing exactly when every character of it is whitespace.
pub proof fn lemma_trim_empty_iff_blank(s: Seq<char>)
    ensures
        trim_seq(s).len() == 0 <==> forall|i: int| 0 <= i < s.len() ==> is_ws(#[trigger] s[i]),
{
    lemma_trim_start_empty(s);
    let t = trim_start_seq(s);
    lemma_trim_end_empty(t);
    if t.len() > 0 {
        assert(!is_ws(t[0]));
    }
}

/// The views of a vector of character vectors.
pub open spec fn seqs_of(v: Seq<Vec<char>>) -> Seq<Seq<char>> {
    v.map_values(|w: Vec<char>| w@)
}

/// The views of a list of strings.
pub open spec fn strings_view(v: Seq<String>) -> Seq<Seq<char>> {
    v.map_values(|w: String| w@)
}

/// Appends `c` to `s` (`String::push`).
#[verifier::external_body]
pub(crate) fn push_char(s: &mut String, c: char)
    ensures
        final(s)@ == old(s)@.push(c),
{
    s.push(c);
}

/// The characters of `s`.
pub fn chars_of(s: &str) -> (v: Vec<char>)
    ensures
        v@ == s@,
{
    let mut v: Vec<char> = Vec::new();
    for c in it: s.chars()
        invariant
            v@ == it.seq().take(it.index() as int),
            it.seq() == s@,
    {
        v.push(c);
    }
    v
}

/// Appends the characters of `cs` to `s`.
pub fn append_chars(s: &mut String, cs: &Vec<char>)
    ensures
        final(s)@ == old(s)@ + cs@,
{
    let n = cs.len();
    for i in 0..n
        invariant
            n == cs.len(),
            s@ == old(s)@ + cs@.take(i as int),
    {
        push_char(s, cs[i]);
        proof {
            assert(cs@.take(i + 1) =~= cs@.take(i as int).push(cs@[i as int]));
        }
    }
    proof {
        assert(cs@.take(n as int) =~= cs@);
    }
}

/// The string made of the characters of `cs`.
pub fn string_of(cs: &Vec<char>) -> (s: String)
    ensures
        s@ == cs@,
{
    let mut s = String::new();
    append_chars(&mut s, cs);
    s
}

/// The characters of `s` from index `lo` up to (not including) `hi`.
pub fn sub_chars(s: &Vec<char>, lo: usize, hi: usize) -> (r: Vec<char>)
    requires
        lo <= hi <= s.len(),
    ensures
        r@ == s@.subrange(lo as int, hi as int),
{
    let mut r: Vec<char> = Vec::new();
    let mut i = lo;
    while i < hi
        invariant
            lo <= i <= hi <= s.len(),
            r@ == s@.subrange(lo as int, i as int),
        decreases hi - i,
    {
        r.push(s[i]);
        proof {
            assert(s@.subrange(lo as int, i + 1) =~= s@.subrange(lo as int, i as int).push(
                s@[i as int],
            ));
        }
        i += 1;
    }
    r
}

/// Whether `s` begins with `p`.
pub fn starts_with(s: &Vec<char>, p: &Vec<char>) -> (b: bool)
    ensures
        b == (p.len() <= s.len() && s@.take(p.len() as int) == p@),
{
    if p.len() > s.len() {
        return false;
    }
    let n = p.len();
    for i in 0..n
        invariant
            n == p.len() <= s.len(),
            forall|j: int| 0 <= j < i ==> s@[j] == p@[j],
    {
        if s[i] != p[i] {
            proof {
                assert(s@.take(n as int)[i as int] != p@[i as int]);
            }
            return false;
        }
    }
    proof {
        assert(s@.take(n as int) =~= p@);
    }
    true
}

/// Whether `s` and `p` hold the same characters.
pub fn same_chars(s: &Vec<char>, p: &Vec<char>) -> (b: bool)
    ensures
        b == (s@ == p@),
{
    if s.len() != p.len() {
        return false;
    }
    let r = starts_with(s, p);
    proof {
        assert(s@.take(s.len() as int) =~= s@);
    }
    r
}

/// `s` without leading and trailing whitespace (`str::trim`).
pub fn trim_chars(s: &Vec<char>) -> (r: Vec<char>)
    ensures
        r@ == trim_seq(s@),
{
    let n = s.len();
    let mut a: usize = 0;
    assert(s@.skip(0) =~= s@);
    while a < n && is_space(s[a])
        invariant
            n == s.len(),
            a <= n,
            trim_start_seq(s@) == trim_start_seq(s@.skip(a as int)),
        decreases n - a,
    {
        proof {
            assert(s@.skip(a as int).drop_first() =~= s@.skip(a + 1));
        }
        a += 1;
    }
    assert(trim_start_seq(s@) == s@.skip(a as int));
    let mut b: usize = n;
    while b > a && is_space(s[b - 1])
        invariant
            n == s.len(),
            a <= b <= n,
            trim_end_seq(s@.skip(a as int)) == trim_end_seq(s@.subrange(a as int, b as int)),
        decreases b,
    {
        proof {
            assert(s@.subrange(a as int, b as int).drop_last() =~= s@.subrange(
                a as int,
                b - 1,
            ));
        }
        b -= 1;
    }
    proof {
        assert(s@.skip(a as int) =~= s@.subrange(a as int, n as int));
    }
    sub_chars(s, a, b)
}

/// `s` without trailing whitespace (`str::trim_end`).
pub fn trim_end_chars(s: &Vec<char>) -> (r: Vec<char>)
    ensures
        r@ == trim_end_seq(s@),
{
    let n = s.len();
    let mut b: usize = n;
    assert(s@.subrange(0, n as int) =~= s@);
    while b > 0 && is_space(s[b - 1])
        invariant
            n == s.len(),
            b <= n,
            trim_end_seq(s@) == trim_end_seq(s@.subrange(0, b as int)),
        decreases b,
    {
        proof {
            assert(s@.subrange(0, b as int).drop_last() =~= s@.subrange(0, b - 1));
        }
        b -= 1;
    }
    proof {
        assert(s@.subrange(0, n as int) =~= s@);
    }
    sub_chars(s, 0, b)
}

/// The lines of `s` (`str::lines`).
pub fn split_lines(s: &Vec<char>) -> (r: Vec<Vec<char>>)
    ensures
        seqs_of(r@) == lines_seq(s@),
{
    let n = s.len();
    let mut out: Vec<Vec<char>> = Vec::new();
    let mut cur: Vec<char> = Vec::new();
    for i in 0..n
        invariant
            n == s.len(),
            lines_seq(s@) == seqs_of(out@) + lines_from(s@, i as int, cur@),
    {
        let ghost c0 = cur@;
        let ghost before = out@;
        if s[i] == '\n' {
            if cur.len() > 0 && cur[cur.len() - 1] == '\r' {
                cur.pop();
            }
            assert(cur@ == strip_cr(c0));
            out.push(cur);
            cur = Vec::new();
            proof {
                assert(seqs_of(out@) =~= seqs_of(before).push(strip_cr(c0)));
                assert(seqs_of(before) + lines_from(s@, i as int, c0) =~= seqs_of(out@)
                    + lines_from(s@, i + 1, cur@));
            }
        } else {
            cur.push(s[i]);
        }
    }
    let ghost before = out@;
    if cur.len() > 0 {
        out.push(cur);
        proof {
            assert(seqs_of(out@) =~= seqs_of(before).push(out@.last()@));
        }
    }
    proof {
        assert(seqs_of(out@) =~= lines_seq(s@));
    }
    out
}

/// The words of `s` (`str::split_whitespace`).
pub fn split_words(s: &Vec<char>) -> (r: Vec<Vec<char>>)
    ensures
        seqs_of(r@) == words_seq(s@),
{
    let n = s.len();
    let mut out: Vec<Vec<char>> = Vec::new();
    let mut cur: Vec<char> = Vec::new();
    for i in 0..n
        invariant
            n == s.len(),
            words_seq(s@) == seqs_of(out@) + words_from(s@, i as int, cur@),
    {
        let ghost c0 = cur@;
        let ghost before = out@;
        if is_space(s[i]) {
            if cur.len() > 0 {
                out.push(cur);
                cur = Vec::new();
                proof {
                    assert(seqs_of(out@) =~= seqs_of(before).push(c0));
                    assert(seqs_of(before) + words_from(s@, i as int, c0) =~= seqs_of(out@)
                        + words_from(s@, i + 1, cur@));
                }
            } else {
                proof {
                    assert(cur@ =~= seq![]);
                    assert(words_from(s@, i as int, c0) =~= words_from(s@, i + 1, seq![]));
                }
            }
        } else {
            cur.push(s[i]);
        }
    }
    let ghost before = out@;
    if cur.len() > 0 {
        out.push(cur);
        proof {
            assert(seqs_of(out@) =~= seqs_of(before).push(out@.last()@));
        }
    }
    proof {
        assert(seqs_of(out@) =~= words_seq(s@));
    }
    out
}

} // verus!
