//! The decisions of the game loop: what a scene offers, where a pick
//! leads, how a key press or a click is read, and how the typewriter
//! effect paces the text. The terminal work itself is done by the caller.
use vstd::prelude::*;
use crate::check::{consistent, start_id, targets_exist};
use crate::color::{colorize_chars, colorize_seq};
use crate::story::{Entries, Scene, SceneModel, has_scene, opt_view, scene_index, scene_of};
use crate::text::{
    chars_of, is_space, is_ws, lemma_trim_empty_iff_blank, lines_seq, seqs_of, split_lines,
    string_of, strings_view, trim_chars, trim_end_chars, trim_end_seq, trim_seq,
};

verus! {

/// The labels of the choices `cs`.
pub open spec fn labels_of(cs: Seq<(Seq<char>, Seq<char>)>) -> Seq<Seq<char>> {
    cs.map_values(|c: (Seq<char>, Seq<char>)| c.0)
}

/// The options that the scene `sc` offers: for an ending, playing again or
/// leaving; otherwise the labels of its choices and then a restart.
pub open spec fn menu_of(sc: SceneModel) -> Seq<Seq<char>> {
    match sc.ending {
        Some(_) => seq!["Jogar de novo"@, "Sair"@],
        None => labels_of(sc.choices).push("Recomeçar do início"@),
    }
}

/// Where the pick `pick` among the options of `sc` leads: the id of the
/// next scene, or `None` when the player leaves.
pub open spec fn next_of(sc: SceneModel, pick: Option<int>) -> Option<Seq<char>> {
    match sc.ending {
        Some(_) => if pick == Some(0int) {
            Some(start_id())
        } else {
            None
        },
        None => match pick {
            None => None,
            Some(p) => if p == sc.choices.len() {
                Some(start_id())
            } else {
                Some(sc.choices[p].1)
            },
        },
    }
}

/// The options that `scene` offers the player (see `menu_of`).
pub fn menu_labels(scene: &Scene) -> (labels: Vec<String>)
    ensures
        strings_view(labels@) == menu_of(scene@),
{
    let mut labels: Vec<String> = Vec::new();
    if scene.ending.is_some() {
        labels.push("Jogar de novo".to_owned());
        labels.push("Sair".to_owned());
        proof {
            assert(strings_view(labels@) =~= menu_of(scene@));
        }
        return labels;
    }
    let n = scene.choices.len();
    let ghost cs = scene@.choices;
    for i in 0..n
        invariant
            n == scene.choices.len(),
            cs == scene@.choices,
            strings_view(labels@) == labels_of(cs.take(i as int)),
    {
        let ghost before = strings_view(labels@);
        let label = scene.choices[i].0.clone();
        labels.push(label);
        proof {
            assert(cs[i as int].0 == scene.choices@[i as int].0@);
            assert(strings_view(labels@) =~= before.push(label@));
            assert(strings_view(labels@) =~= labels_of(cs.take(i + 1)));
        }
    }
    labels.push("Recomeçar do início".to_owned());
    proof {
        assert(cs.take(n as int) =~= cs);
        assert(strings_view(labels@) =~= menu_of(scene@));
    }
    labels
}

/// Where the player's pick among the options of `scene` leads: the id of
/// the next scene, or `None` when the player leaves (`pick` is `None` when
/// the player asked to quit).
pub fn next_scene(scene: &Scene, pick: Option<usize>) -> (r: Option<String>)
    requires
        scene@.ending is None ==> (pick matches Some(p) ==> p <= scene@.choices.len()),
    ensures
        opt_view(r) == next_of(
            scene@,
            match pick {
                Some(p) => Some(p as int),
                None => None,
            },
        ),
{
    if scene.ending.is_some() {
        return match pick {
            Some(0) => Some("inicio".to_owned()),
            _ => None,
        };
    }
    match pick {
        None => None,
        Some(p) => {
            if p == scene.choices.len() {
                Some("inicio".to_owned())
            } else {
                Some(scene.choices[p].1.clone())
            }
        },
    }
}

/// In a story that holds together, every move of the game from one of its
/// scenes leads to one of its scenes (or out of the game): the player never
/// reaches a scene that does not exist.
pub proof fn lemma_moves_stay_in_story(es: Entries, id: Seq<char>, pick: Option<int>)
    requires
        consistent(es),
        has_scene(es, id),
        scene_of(es, id).ending is None ==> (pick matches Some(p) ==> 0 <= p
            <= scene_of(es, id).choices.len()),
    ensures
        next_of(scene_of(es, id), pick) matches Some(t) ==> has_scene(es, t),
{
    let k = scene_index(es, id);
    assert(0 <= k < es.len() && es[k].0 == id);
    let sc = es[k].1;
    assert(targets_exist(es, sc.choices));
    match pick {
        Some(p) => {
            if sc.ending is None && p < sc.choices.len() {
                assert(has_scene(es, sc.choices[p].1));
            }
        },
        None => {},
    }
}

/// Whether an ending tag is the good ending (`good`); every other tag is
/// played as a bad one.
pub fn ending_is_good(tag: &String) -> (b: bool)
    ensures
        b == (tag@ == "good"@),
{
    *tag == "good".to_owned()
}

/// The lines of the art of `sc` to draw: none when the art is blank.
pub open spec fn art_lines_of(sc: SceneModel) -> Seq<Seq<char>> {
    if trim_seq(sc.art).len() == 0 {
        seq![]
    } else {
        lines_seq(sc.art)
    }
}

/// The lines of the art of `scene` to draw (see `art_lines_of`).
pub fn art_lines(scene: &Scene) -> (r: Vec<String>)
    ensures
        strings_view(r@) == art_lines_of(scene@),
{
    let cs = chars_of(scene.art.as_str());
    let t = trim_chars(&cs);
    if t.len() == 0 {
        let r: Vec<String> = Vec::new();
        assert(strings_view(r@) =~= Seq::<Seq<char>>::empty());
        return r;
    }
    let ls = split_lines(&cs);
    let mut r: Vec<String> = Vec::new();
    let n = ls.len();
    for i in 0..n
        invariant
            n == ls.len(),
            strings_view(r@) == seqs_of(ls@).take(i as int),
    {
        let ghost before = strings_view(r@);
        let line = string_of(&ls[i]);
        r.push(line);
        proof {
            assert(strings_view(r@) =~= before.push(line@));
            assert(strings_view(r@) =~= seqs_of(ls@).take(i + 1));
        }
    }
    proof {
        assert(seqs_of(ls@).take(n as int) =~= seqs_of(ls@));
    }
    r
}

/// The text of `scene` as the typewriter shows it: without trailing
/// whitespace, with its color tags turned into terminal codes.
pub fn scene_text(scene: &Scene) -> (r: String)
    ensures
        r@ == colorize_seq(trim_end_seq(scene@.text)),
{
    let cs = chars_of(scene.text.as_str());
    let t = trim_end_chars(&cs);
    let c = colorize_chars(&t);
    string_of(&c)
}

/// What the typewriter does with one character.
pub struct TypeStep {
    /// Whether the characters that follow are inside a terminal code.
    pub in_escape: bool,
    /// Whether the left margin is printed after the character.
    pub margin: bool,
    /// Whether the output is flushed after the character.
    pub flush: bool,
    /// Whether the typewriter waits after the character.
    pub pause: bool,
}

/// What the typewriter does with `c`, inside a terminal code or not, when
/// it waits `delay_ms` after each character: the characters of a terminal
/// code (from ESC to the `m` that ends it) come out at once; every other
/// character is flushed, and a wait follows the ones that are not
/// whitespace.
pub open spec fn type_step_of(in_escape: bool, c: char, delay_ms: u64) -> TypeStep {
    if in_escape || c == '\u{1b}' {
        TypeStep { in_escape: c != 'm', margin: c == '\n', flush: false, pause: false }
    } else {
        TypeStep { in_escape: false, margin: c == '\n', flush: true, pause: delay_ms > 0 && !is_ws(c) }
    }
}

/// What the typewriter does with `c` (see `type_step_of`).
pub fn typewrite_step(in_escape: bool, c: char, delay_ms: u64) -> (s: TypeStep)
    ensures
        s == type_step_of(in_escape, c, delay_ms),
{
    if in_escape || c == '\u{1b}' {
        TypeStep { in_escape: c != 'm', margin: c == '\n', flush: false, pause: false }
    } else {
        TypeStep {
            in_escape: false,
            margin: c == '\n',
            flush: true,
            pause: delay_ms > 0 && !is_space(c),
        }
    }
}

/// An input event, as the game reads it.
#[derive(PartialEq, Eq, Structural, Clone, Copy)]
pub enum Input {
    /// A key press of a character, with or without Control held.
    Key { c: char, ctrl: bool },
    /// A press of Escape.
    Esc,
    /// A mouse button pressed on the terminal row `row`.
    Click { row: u16 },
    /// Any other event.
    Other,
}

/// What the game does after an input event while it waits for a pick.
#[derive(PartialEq, Eq, Structural, Clone, Copy)]
pub enum Decision {
    /// Keep waiting.
    Wait,
    /// The player leaves.
    Quit,
    /// The player picked the option with this index.
    Pick(usize),
}

/// The value of a decimal digit character.
pub open spec fn digit_of(c: char) -> Option<int> {
    if '0' <= c && c <= '9' {
        Some(c as int - '0' as int)
    } else {
        None
    }
}

/// The first index from `i` on at which `rows` holds `row`.
pub open spec fn row_index_from(rows: Seq<u16>, row: u16, i: int) -> Option<int>
    decreases rows.len() - i,
{
    if i < 0 || i >= rows.len() {
        None
    } else if rows[i] == row {
        Some(i)
    } else {
        row_index_from(rows, row, i + 1)
    }
}

/// What the game does after `input` when the options stand on the terminal
/// rows `rows`: `q`, Escape and Control+C leave; a digit from 1 to the number
/// of options picks that option; a click picks the first option on the
/// clicked row; everything else is ignored.
pub open spec fn decision_of(input: Input, rows: Seq<u16>) -> Decision {
    match input {
        Input::Key { c, ctrl } => if c == 'q' {
            Decision::Quit
        } else if c == 'c' && ctrl {
            Decision::Quit
        } else {
            match digit_of(c) {
                Some(d) => if 1 <= d <= rows.len() {
                    Decision::Pick((d - 1) as usize)
                } else {
                    Decision::Wait
                },
                None => Decision::Wait,
            }
        },
        Input::Esc => Decision::Quit,
        Input::Click { row } => match row_index_from(rows, row, 0) {
            Some(i) => Decision::Pick(i as usize),
            None => Decision::Wait,
        },
        Input::Other => Decision::Wait,
    }
}

/// What the game does after `input` (see `decision_of`).
pub fn decide(input: &Input, rows: &Vec<u16>) -> (d: Decision)
    ensures
        d == decision_of(*input, rows@),
        d matches Decision::Pick(i) ==> i < rows.len(),
{
    match input {
        Input::Key { c, ctrl } => {
            let c = *c;
            if c == 'q' {
                Decision::Quit
            } else if c == 'c' && *ctrl {
                Decision::Quit
            } else if '0' <= c && c <= '9' {
                let d = (c as u32) - ('0' as u32);
                if 1 <= d && (d as usize) <= rows.len() {
                    Decision::Pick((d - 1) as usize)
                } else {
                    Decision::Wait
                }
            } else {
                Decision::Wait
            }
        },
        Input::Esc => Decision::Quit,
        Input::Click { row } => {
            let n = rows.len();
            let mut i: usize = 0;
            while i < n
                invariant
                    n == rows.len(),
                    i <= n,
                    *input == (Input::Click { row: *row }),
                    row_index_from(rows@, *row, 0) == row_index_from(rows@, *row, i as int),
                decreases n - i,
            {
                if rows[i] == *row {
                    return Decision::Pick(i);
                }
                i += 1;
            }
            Decision::Wait
        },
        Input::Other => Decision::Wait,
    }
}

/// The art of a scene is drawn line by line (the lines of `str::lines`,
/// blank ones included) whenever it holds a character that is not
/// whitespace; only an art made of whitespace alone draws nothing.
pub proof fn lemma_art_drawn_unless_blank(sc: SceneModel)
    ensures
        (exists|i: int| 0 <= i < sc.art.len() && !is_ws(#[trigger] sc.art[i])) ==> art_lines_of(sc)
            == lines_seq(sc.art),
        (forall|i: int| 0 <= i < sc.art.len() ==> is_ws(#[trigger] sc.art[i])) ==> art_lines_of(
            sc,
        ).len() == 0,
{
    lemma_trim_empty_iff_blank(sc.art);
}

/// How the typewriter paces each character: the margin follows exactly the
/// line breaks; outside a terminal code every character but ESC is shown at
/// once and followed by the wait exactly when there is a delay and it is
/// not whitespace; ESC opens a code; inside a code nothing is flushed or
/// waited for, and `m` closes the code.
pub proof fn lemma_typewriter_pacing(in_escape: bool, c: char, delay_ms: u64)
    ensures
        type_step_of(in_escape, c, delay_ms).margin == (c == '\n'),
        !in_escape && c != '\u{1b}' ==> {
            let st = type_step_of(in_escape, c, delay_ms);
            &&& !st.in_escape
            &&& st.flush
            &&& st.pause == (delay_ms > 0 && !is_ws(c))
        },
        c == '\u{1b}' ==> {
            let st = type_step_of(in_escape, c, delay_ms);
            st.in_escape && !st.flush && !st.pause
        },
        in_escape ==> {
            let st = type_step_of(in_escape, c, delay_ms);
            &&& !st.flush
            &&& !st.pause
            &&& st.in_escape == (c != 'm')
        },
{
}

proof fn lemma_row_index_from(rows: Seq<u16>, row: u16, i: int)
    requires
        0 <= i,
    ensures
        match row_index_from(rows, row, i) {
            Some(k) => i <= k < rows.len() && rows[k] == row && forall|j: int|
                i <= j < k ==> rows[j] != row,
            None => forall|j: int| i <= j < rows.len() ==> rows[j] != row,
        },
    decreases rows.len() - i,
{
    if i < rows.len() && rows[i] != row {
        lemma_row_index_from(rows, row, i + 1);
    }
}

/// A click picks the first option standing on the clicked row, whichever
/// option that is, the last one included; it is ignored exactly when no
/// option stands on that row.
pub proof fn lemma_click_picks_first_option_on_row(rows: Seq<u16>, row: u16)
    requires
        rows.len() <= usize::MAX,
    ensures
        decision_of(Input::Click { row }, rows) matches Decision::Pick(i) ==> i < rows.len()
            && rows[i as int] == row && forall|j: int| 0 <= j < i ==> rows[j] != row,
        decision_of(Input::Click { row }, rows) == Decision::Wait <==> forall|j: int|
            0 <= j < rows.len() ==> rows[j] != row,
        decision_of(Input::Click { row }, rows) is Pick || decision_of(Input::Click { row }, rows)
            == Decision::Wait,
{
    lemma_row_index_from(rows, row, 0);
}

/// Keys: `q`, Escape and Control+C leave; a digit `d` from 1 to the number
/// of options picks option `d - 1`; every other key is ignored, and no
/// pick is ever past the last option.
pub proof fn lemma_keys_pick_or_quit(c: char, ctrl: bool, rows: Seq<u16>)
    requires
        rows.len() <= usize::MAX,
    ensures
        decision_of(Input::Esc, rows) == Decision::Quit,
        c == 'q' ==> decision_of(Input::Key { c, ctrl }, rows) == Decision::Quit,
        c == 'c' && ctrl ==> decision_of(Input::Key { c, ctrl }, rows) == Decision::Quit,
        '1' <= c <= '9' && (c as int - '0' as int) <= rows.len() ==> decision_of(
            Input::Key { c, ctrl },
            rows,
        ) == Decision::Pick((c as int - '1' as int) as usize),
        c != 'q' && !(c == 'c' && ctrl) && !('1' <= c <= '9' && (c as int - '0' as int)
            <= rows.len()) ==> decision_of(Input::Key { c, ctrl }, rows) == Decision::Wait,
        decision_of(Input::Key { c, ctrl }, rows) matches Decision::Pick(i) ==> i < rows.len(),
{
}

} // verus!
