//! Terminal text that the game draws: the Commodore 64 frame and the
//! option lines of a menu.
use vstd::prelude::*;
use crate::text::push_char;

verus! {

/// The decimal digit character for `d < 10`.
pub open spec fn digit_char(d: nat) -> char {
    ('0' as nat + d) as char
}

/// The decimal notation of `n`.
pub open spec fn decimal(n: nat) -> Seq<char>
    decreases n,
{
    if n < 10 {
        seq![digit_char(n)]
    } else {
        decimal(n / 10).push(digit_char(n % 10))
    }
}

/// `n` spaces.
pub open spec fn spaces(n: nat) -> Seq<char> {
    Seq::new(n, |i: int| ' ')
}

/// The two-column sides of the frame on rows `row`, `row + 1`, ..., `h - 1`
/// of a terminal `w` columns wide: each row gets two blank cells at column 1
/// and two at column `w - 1`.
pub open spec fn frame_sides(w: nat, h: nat, row: nat) -> Seq<char>
    decreases h - row,
{
    if row >= h {
        seq![]
    } else {
        "\x1b["@ + decimal(row) + ";1H  \x1b["@ + decimal(row) + ";"@ + decimal(
            (w - 1) as nat,
        ) + "H  "@ + frame_sides(w, h, row + 1)
    }
}

/// What clears a `w` by `h` terminal and draws the Commodore 64 frame: a
/// full top and bottom row and two-column sides in the border color, then
/// the cursor on row 3.
pub open spec fn frame_of(w: nat, h: nat) -> Seq<char> {
    "\x1b[0m\x1b[2J\x1b[48;2;120;105;196m\x1b[1;1H"@ + spaces(w) + "\x1b["@ + decimal(h) + ";1H"@
        + spaces(w) + frame_sides(w, h, 2) + "\x1b[0m\x1b[3;1H"@
}

/// Appends the decimal notation of `n` to `s`.
fn push_decimal(s: &mut String, n: usize)
    ensures
        final(s)@ == old(s)@ + decimal(n as nat),
    decreases n,
{
    if n >= 10 {
        push_decimal(s, n / 10);
    }
    let d = n % 10;
    push_char(s, ((('0' as u8) + (d as u8)) as char));
    proof {
        assert(((('0' as u8) + (d as u8)) as char) == digit_char(d as nat));
        if n < 10 {
            assert(old(s)@ + decimal(n as nat) =~= old(s)@.push(digit_char(n as nat)));
        } else {
            assert(old(s)@ + decimal(n as nat) =~= (old(s)@ + decimal((n / 10) as nat)).push(
                digit_char((n % 10) as nat),
            ));
        }
    }
}

/// Appends `n` spaces to `s`.
fn push_spaces(s: &mut String, n: usize)
    ensures
        final(s)@ == old(s)@ + spaces(n as nat),
{
    for i in 0..n
        invariant
            s@ == old(s)@ + spaces(i as nat),
    {
        push_char(s, ' ');
        proof {
            assert(old(s)@ + spaces((i + 1) as nat) =~= (old(s)@ + spaces(i as nat)).push(' '));
        }
    }
}

/// What clears a `w` by `h` terminal and draws the Commodore 64 frame (see
/// `frame_of`).
pub fn c64_frame(w: u16, h: u16) -> (r: String)
    requires
        h <= 2 || w >= 1,
    ensures
        r@ == frame_of(w as nat, h as nat),
{
    let mut s = "\x1b[0m\x1b[2J\x1b[48;2;120;105;196m\x1b[1;1H".to_owned();
    push_spaces(&mut s, w as usize);
    s.append("\x1b[");
    push_decimal(&mut s, h as usize);
    s.append(";1H");
    push_spaces(&mut s, w as usize);
    let ghost head = s@;
    let mut row: u16 = 2;
    while row < h
        invariant
            h <= 2 || w >= 1,
            2 <= row,
            row < h || row == 2 || row == h,
            head + frame_sides(w as nat, h as nat, 2) == s@ + frame_sides(
                w as nat,
                h as nat,
                row as nat,
            ),
        decreases h - row,
    {
        let ghost before = s@;
        s.append("\x1b[");
        push_decimal(&mut s, row as usize);
        s.append(";1H  \x1b[");
        push_decimal(&mut s, row as usize);
        s.append(";");
        push_decimal(&mut s, (w - 1) as usize);
        s.append("H  ");
        proof {
            assert(before + frame_sides(w as nat, h as nat, row as nat) =~= s@ + frame_sides(
                w as nat,
                h as nat,
                (row + 1) as nat,
            ));
        }
        row += 1;
    }
    proof {
        assert(frame_sides(w as nat, h as nat, row as nat) =~= Seq::<char>::empty());
    }
    s.append("\x1b[0m\x1b[3;1H");
    proof {
        assert(s@ =~= frame_of(w as nat, h as nat));
    }
    s
}

/// The menu line of option number `i` (counted from 0) with the label
/// `label`: indented, its number from 1 in bold yellow brackets, then the
/// label.
pub open spec fn option_line_of(i: nat, label: Seq<char>) -> Seq<char> {
    "\x1b[5G\x1b[1m\x1b[33m  ["@ + decimal(i + 1) + "]\x1b[0m "@ + label
}

/// The menu line of option number `i` (see `option_line_of`).
pub fn option_line(i: usize, label: &String) -> (r: String)
    requires
        i < usize::MAX,
    ensures
        r@ == option_line_of(i as nat, label@),
{
    let mut s = "\x1b[5G\x1b[1m\x1b[33m  [".to_owned();
    push_decimal(&mut s, i + 1);
    s.append("]\x1b[0m ");
    s.append(label.as_str());
    s
}

} // verus!
