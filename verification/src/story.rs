//! Stories: the scene data type, the story type, and the parser for the
//! plain-text story format.
//!
//! A story file is read line by line. `=== id` opens a scene; `@art`
//! (optionally followed by two `#RRGGBB` colors for a vertical gradient),
//! `@text` and `@choices` open a section of the current scene; `@ending tag`
//! marks the scene as an ending. Other lines belong to the open section:
//! art and text lines are kept as they are, and a choice line reads
//! `label -> target`.
use vstd::prelude::*;
use crate::color::{Rgb, hex_color, hex_chars};
use crate::text::{
    append_chars, chars_of, is_ws, joined_lines, lemma_lines_concat, lemma_lines_of_joined,
    lemma_trim_keeps_out, lemma_trim_solid, lines_seq, push_char, simple_line, trim_start_seq, same_chars, seqs_of, split_lines,
    split_words, starts_with, string_of, sub_chars, trim_chars, trim_seq, words_from, words_seq,
};

verus! {

/// A scene of a story.
pub struct Scene {
    /// The ASCII art, one `\n`-terminated line after another.
    pub art: String,
    /// A vertical gradient for the art: top color, bottom color.
    pub grad: Option<(Rgb, Rgb)>,
    /// The narrative text, one `\n`-terminated line after another.
    pub text: String,
    /// The choices, as (label, id of the target scene).
    pub choices: Vec<(String, String)>,
    /// The ending tag (`good`, `bad`, ...) when the scene ends the story.
    pub ending: Option<String>,
}

/// What a scene holds, as plain sequences.
pub struct SceneModel {
    pub art: Seq<char>,
    pub grad: Option<(Rgb, Rgb)>,
    pub text: Seq<char>,
    pub choices: Seq<(Seq<char>, Seq<char>)>,
    pub ending: Option<Seq<char>>,
}

/// The view of an optional string.
pub open spec fn opt_view(o: Option<String>) -> Option<Seq<char>> {
    match o {
        Some(s) => Some(s@),
        None => None,
    }
}

/// The views of a list of (label, target) pairs.
pub open spec fn choices_view(cs: Seq<(String, String)>) -> Seq<(Seq<char>, Seq<char>)> {
    cs.map_values(|p: (String, String)| (p.0@, p.1@))
}

impl View for Scene {
    type V = SceneModel;

    open spec fn view(&self) -> SceneModel {
        SceneModel {
            art: self.art@,
            grad: self.grad,
            text: self.text@,
            choices: choices_view(self.choices@),
            ending: opt_view(self.ending),
        }
    }
}

/// A scene with nothing in it.
pub open spec fn empty_scene() -> SceneModel {
    SceneModel { art: seq![], grad: None, text: seq![], choices: seq![], ending: None }
}

impl Scene {
    /// A scene with nothing in it.
    pub fn new() -> (s: Scene)
        ensures
            s@ == empty_scene(),
    {
        let s = Scene {
            art: String::new(),
            grad: None,
            text: String::new(),
            choices: Vec::new(),
            ending: None,
        };
        assert(s@.choices =~= Seq::<(Seq<char>, Seq<char>)>::empty());
        s
    }
}

/// The scenes of a story as (id, scene) pairs.
pub type Entries = Seq<(Seq<char>, SceneModel)>;

/// Whether some scene of `es` has the id `id`.
pub open spec fn has_scene(es: Entries, id: Seq<char>) -> bool {
    exists|i: int| 0 <= i < es.len() && (#[trigger] es[i]).0 == id
}

/// The position of a scene of `es` with the id `id`.
pub open spec fn scene_index(es: Entries, id: Seq<char>) -> int {
    choose|i: int| 0 <= i < es.len() && (#[trigger] es[i]).0 == id
}

/// The scene of `es` with the id `id`.
pub open spec fn scene_of(es: Entries, id: Seq<char>) -> SceneModel {
    es[scene_index(es, id)].1
}

/// Whether no two scenes of `es` share an id.
pub open spec fn unique_ids(es: Entries) -> bool {
    forall|i: int, j: int|
        0 <= i < es.len() && 0 <= j < es.len() && (#[trigger] es[i]).0 == (#[trigger] es[j]).0
            ==> i == j
}

/// `es` with the scene `sc` stored under `id`: it takes the place of the
/// scene that already has that id, or comes last when there is none.
pub open spec fn upsert(es: Entries, id: Seq<char>, sc: SceneModel) -> Entries {
    if has_scene(es, id) {
        es.update(scene_index(es, id), (id, sc))
    } else {
        es.push((id, sc))
    }
}

/// The views of a list of (id, scene) pairs.
pub open spec fn entries_view(v: Seq<(String, Scene)>) -> Entries {
    v.map_values(|e: (String, Scene)| (e.0@, e.1@))
}

/// A parsed story: its scenes, each under its own id.
pub struct Story {
    scenes: Vec<(String, Scene)>,
}

impl View for Story {
    type V = Entries;

    closed spec fn view(&self) -> Entries {
        entries_view(self.scenes@)
    }
}

impl Story {
    /// No two scenes of a story share an id.
    #[verifier::type_invariant]
    spec fn ids_distinct(self) -> bool {
        unique_ids(entries_view(self.scenes@))
    }

    /// Whether the story's scene ids are distinct.
    pub open spec fn well_formed(&self) -> bool {
        unique_ids(self@)
    }

    /// A story without scenes.
    pub fn new() -> (s: Story)
        ensures
            s@ == Seq::<(Seq<char>, SceneModel)>::empty(),
            s.well_formed(),
    {
        let s = Story { scenes: Vec::new() };
        assert(s@ =~= Seq::<(Seq<char>, SceneModel)>::empty());
        s
    }

    /// The number of scenes.
    pub fn len(&self) -> (n: usize)
        ensures
            n == self@.len(),
    {
        self.scenes.len()
    }

    /// The id of scene number `i`.
    pub fn id_at(&self, i: usize) -> (id: &String)
        requires
            i < self@.len(),
        ensures
            id@ == self@[i as int].0,
    {
        &self.scenes[i].0
    }

    /// Scene number `i`.
    pub fn scene_at(&self, i: usize) -> (sc: &Scene)
        requires
            i < self@.len(),
        ensures
            sc@ == self@[i as int].1,
    {
        &self.scenes[i].1
    }

    /// The position of the scene with the id `id`, or `None` when there is none.
    pub fn position(&self, id: &String) -> (r: Option<usize>)
        ensures
            r is Some <==> has_scene(self@, id@),
            r matches Some(i) ==> i < self@.len() && self@[i as int].0 == id@ && forall|j: int|
                0 <= j < i ==> self@[j].0 != id@,
    {
        let n = self.scenes.len();
        for i in 0..n
            invariant
                n == self.scenes@.len(),
                self@ == entries_view(self.scenes@),
                forall|j: int| 0 <= j < i ==> self@[j].0 != id@,
        {
            if self.scenes[i].0 == *id {
                assert(self@[i as int].0 == id@);
                return Some(i);
            }
        }
        proof {
            assert forall|j: int| 0 <= j < self@.len() implies (#[trigger] self@[j]).0 != id@ by {}
        }
        None
    }

    /// Whether a scene has the id `id`.
    pub fn contains(&self, id: &String) -> (b: bool)
        ensures
            b == has_scene(self@, id@),
    {
        self.position(id).is_some()
    }

    /// The scene with the id `id`, or `None` when there is none.
    pub fn get(&self, id: &String) -> (r: Option<&Scene>)
        ensures
            r is Some <==> has_scene(self@, id@),
            r matches Some(sc) ==> sc@ == scene_of(self@, id@),
    {
        proof {
            use_type_invariant(self);
        }
        match self.position(id) {
            Some(i) => {
                proof {
                    let k = scene_index(self@, id@);
                    assert(self@[k].0 == id@);
                }
                Some(&self.scenes[i].1)
            },
            None => None,
        }
    }
}

/// Stores `sc` under `id` in `scenes` (see `upsert`).
fn store_scene(scenes: &mut Vec<(String, Scene)>, id: String, sc: Scene)
    requires
        unique_ids(entries_view(old(scenes)@)),
    ensures
        entries_view(final(scenes)@) == upsert(entries_view(old(scenes)@), id@, sc@),
        unique_ids(entries_view(final(scenes)@)),
{
    let ghost es = entries_view(scenes@);
    let ghost idv = id@;
    let ghost scv = sc@;
    let n = scenes.len();
    let mut i: usize = 0;
    while i < n
        invariant
            n == scenes@.len(),
            es == entries_view(scenes@),
            scenes@ == old(scenes)@,
            idv == id@,
            scv == sc@,
            unique_ids(es),
            i <= n,
            forall|j: int| 0 <= j < i ==> es[j].0 != idv,
        decreases n - i,
    {
        if scenes[i].0 == id {
            proof {
                assert(es[i as int].0 == idv);
                assert(has_scene(es, idv));
                let k = scene_index(es, idv);
                assert(es[k].0 == idv);
                assert(k == i as int);
            }
            scenes.set(i, (id, sc));
            proof {
                assert(entries_view(scenes@) =~= es.update(i as int, (idv, scv)));
                assert(upsert(es, idv, scv) == es.update(i as int, (idv, scv)));
            }
            return;
        }
        i += 1;
    }
    proof {
        assert(!has_scene(es, idv));
    }
    scenes.push((id, sc));
    proof {
        assert(entries_view(scenes@) =~= es.push((idv, scv)));
    }
}

/// The section of a scene that plain lines go to.
#[derive(PartialEq, Eq, Structural, Clone, Copy)]
pub enum Section {
    /// No section is open: plain lines are ignored.
    Outside,
    Art,
    Text,
    Choices,
}

/// What the parser knows after some lines: the scenes stored so far, the id
/// of the scene being read (empty before the first header), that scene, and
/// the open section.
pub struct ParseModel {
    pub scenes: Entries,
    pub id: Seq<char>,
    pub scene: SceneModel,
    pub section: Section,
}

/// What the parser knows before the first line.
pub open spec fn initial_parse() -> ParseModel {
    ParseModel { scenes: seq![], id: seq![], scene: empty_scene(), section: Section::Outside }
}

/// Whether `s` begins with `p`.
pub open spec fn begins_with(s: Seq<char>, p: Seq<char>) -> bool {
    p.len() <= s.len() && s.take(p.len() as int) == p
}

/// `=== `, which opens a scene.
pub open spec fn header_mark() -> Seq<char> {
    seq!['=', '=', '=', ' ']
}

/// `@art`, which opens the art section.
pub open spec fn art_mark() -> Seq<char> {
    seq!['@', 'a', 'r', 't']
}

/// `@text`, which opens the text section.
pub open spec fn text_mark() -> Seq<char> {
    seq!['@', 't', 'e', 'x', 't']
}

/// `@choices`, which opens the choices section.
pub open spec fn choices_mark() -> Seq<char> {
    seq!['@', 'c', 'h', 'o', 'i', 'c', 'e', 's']
}

/// `@ending `, which is followed by the ending tag.
pub open spec fn ending_mark() -> Seq<char> {
    seq!['@', 'e', 'n', 'd', 'i', 'n', 'g', ' ']
}

/// The colors that the words of `ws` denote in `#RRGGBB` notation, in
/// order, skipping the words that denote none.
pub open spec fn hex_colors(ws: Seq<Seq<char>>) -> Seq<Rgb>
    decreases ws.len(),
{
    if ws.len() == 0 {
        seq![]
    } else {
        hex_colors(ws.drop_last()) + match hex_color(ws.last()) {
            Some(c) => seq![c],
            None => seq![],
        }
    }
}

/// The gradient that an `@art` line `t` asks for: the first two colors
/// among the words after `@art`, when there are two.
pub open spec fn art_gradient(t: Seq<char>) -> Option<(Rgb, Rgb)> {
    let ws = words_seq(t);
    let cs = if ws.len() > 0 {
        hex_colors(ws.drop_first())
    } else {
        seq![]
    };
    if cs.len() >= 2 {
        Some((cs[0], cs[1]))
    } else {
        None
    }
}

/// The position of the first `->` in `s` at or after `i`.
pub open spec fn arrow_from(s: Seq<char>, i: int) -> Option<int>
    decreases s.len() - i,
{
    if i < 0 || i + 1 >= s.len() {
        None
    } else if s[i] == '-' && s[i + 1] == '>' {
        Some(i)
    } else {
        arrow_from(s, i + 1)
    }
}

/// What the parser knows after the line `line`, given what it knew before.
pub open spec fn parse_line(st: ParseModel, line: Seq<char>) -> ParseModel {
    if begins_with(line, header_mark()) {
        let new_id = trim_seq(line.skip(4));
        if st.id.len() > 0 {
            ParseModel {
                scenes: upsert(st.scenes, st.id, st.scene),
                id: new_id,
                scene: empty_scene(),
                section: Section::Outside,
            }
        } else {
            ParseModel { id: new_id, section: Section::Outside, ..st }
        }
    } else {
        let t = trim_seq(line);
        if begins_with(t, art_mark()) {
            let grad = match art_gradient(t) {
                Some(g) => Some(g),
                None => st.scene.grad,
            };
            ParseModel { scene: SceneModel { grad: grad, ..st.scene }, section: Section::Art, ..st }
        } else if t == text_mark() {
            ParseModel { section: Section::Text, ..st }
        } else if t == choices_mark() {
            ParseModel { section: Section::Choices, ..st }
        } else if begins_with(t, ending_mark()) {
            ParseModel { scene: SceneModel { ending: Some(t.skip(8)), ..st.scene }, ..st }
        } else {
            match st.section {
                Section::Art => ParseModel {
                    scene: SceneModel { art: st.scene.art + line.push('\n'), ..st.scene },
                    ..st
                },
                Section::Text => ParseModel {
                    scene: SceneModel { text: st.scene.text + line.push('\n'), ..st.scene },
                    ..st
                },
                Section::Choices => match arrow_from(line, 0) {
                    Some(i) => ParseModel {
                        scene: SceneModel {
                            choices: st.scene.choices.push(
                                (trim_seq(line.take(i)), trim_seq(line.skip(i + 2))),
                            ),
                            ..st.scene
                        },
                        ..st
                    },
                    None => st,
                },
                Section::Outside => st,
            }
        }
    }
}

/// What the parser knows after the lines `ls`, given what it knew before.
pub open spec fn parse_lines(st: ParseModel, ls: Seq<Seq<char>>) -> ParseModel
    decreases ls.len(),
{
    if ls.len() == 0 {
        st
    } else {
        parse_lines(parse_line(st, ls[0]), ls.drop_first())
    }
}

/// The scenes once the input has ended: the scene being read is stored
/// when it has an id.
pub open spec fn finish_parse(st: ParseModel) -> Entries {
    if st.id.len() > 0 {
        upsert(st.scenes, st.id, st.scene)
    } else {
        st.scenes
    }
}

/// The scenes of the story text `src`.
pub open spec fn story_of(src: Seq<char>) -> Entries {
    finish_parse(parse_lines(initial_parse(), lines_seq(src)))
}

/// The parser's state while it reads a story.
struct Parser {
    scenes: Vec<(String, Scene)>,
    id: Vec<char>,
    scene: Scene,
    section: Section,
}

spec fn parser_view(p: &Parser) -> ParseModel {
    ParseModel {
        scenes: entries_view(p.scenes@),
        id: p.id@,
        scene: p.scene@,
        section: p.section,
    }
}

/// The position of the first `->` in `s`.
fn find_arrow(s: &Vec<char>) -> (r: Option<usize>)
    ensures
        r is None <==> arrow_from(s@, 0) is None,
        r matches Some(i) ==> arrow_from(s@, 0) == Some(i as int) && i + 1 < s.len(),
{
    let n = s.len();
    let mut i: usize = 0;
    while i < n && i + 1 < n
        invariant
            n == s.len(),
            i <= n,
            arrow_from(s@, 0) == arrow_from(s@, i as int),
        decreases n - i,
    {
        if s[i] == '-' && s[i + 1] == '>' {
            return Some(i);
        }
        i += 1;
    }
    None
}

/// The gradient that the `@art` line `t` asks for.
fn gradient_of(t: &Vec<char>) -> (r: Option<(Rgb, Rgb)>)
    requires
        words_seq(t@).len() > 0,
    ensures
        r == art_gradient(t@),
{
    let ws = split_words(t);
    let n = ws.len();
    let ghost wv = seqs_of(ws@);
    let mut cs: Vec<Rgb> = Vec::new();
    assert(wv.subrange(1, 1) =~= Seq::<Seq<char>>::empty());
    for k in 1..n
        invariant
            n == ws.len(),
            wv == seqs_of(ws@),
            cs@ == hex_colors(wv.subrange(1, k as int)),
    {
        let c = hex_chars(&ws[k]);
        proof {
            let u = wv.subrange(1, k + 1);
            assert(u.drop_last() =~= wv.subrange(1, k as int));
            assert(u.last() == ws@[k as int]@);
        }
        match c {
            Some(rgb) => {
                cs.push(rgb);
            },
            None => {},
        }
    }
    proof {
        assert(wv.subrange(1, n as int) =~= wv.drop_first());
    }
    if cs.len() >= 2 {
        Some((cs[0], cs[1]))
    } else {
        None
    }
}

/// Reads one line of a story.
fn feed_line(p: Parser, line: &Vec<char>) -> (q: Parser)
    requires
        unique_ids(entries_view(p.scenes@)),
    ensures
        parser_view(&q) == parse_line(parser_view(&p), line@),
        unique_ids(entries_view(q.scenes@)),
{
    let ghost st = parser_view(&p);
    let Parser { mut scenes, id, mut scene, section } = p;
    if starts_with(line, &vec!['=', '=', '=', ' ']) {
        let rest = sub_chars(line, 4, line.len());
        let new_id = trim_chars(&rest);
        proof {
            assert(rest@ =~= line@.skip(4));
        }
        if id.len() > 0 {
            let key = string_of(&id);
            store_scene(&mut scenes, key, scene);
            return Parser { scenes, id: new_id, scene: Scene::new(), section: Section::Outside };
        } else {
            return Parser { scenes, id: new_id, scene, section: Section::Outside };
        }
    }
    let t = trim_chars(line);
    if starts_with(&t, &vec!['@', 'a', 'r', 't']) {
        proof {
            assert(t@[0] == '@');
            assert(!is_ws(t@[0]));
            assert(words_from(t@, 0, seq![]) == words_from(t@, 1, seq![t@[0]]));
            lemma_words_keep_current(t@, 1, seq![t@[0]]);
        }
        match gradient_of(&t) {
            Some(g) => {
                scene.grad = Some(g);
            },
            None => {},
        }
        return Parser { scenes, id, scene, section: Section::Art };
    }
    if same_chars(&t, &vec!['@', 't', 'e', 'x', 't']) {
        return Parser { scenes, id, scene, section: Section::Text };
    }
    if same_chars(&t, &vec!['@', 'c', 'h', 'o', 'i', 'c', 'e', 's']) {
        return Parser { scenes, id, scene, section: Section::Choices };
    }
    if starts_with(&t, &vec!['@', 'e', 'n', 'd', 'i', 'n', 'g', ' ']) {
        let tag = sub_chars(&t, 8, t.len());
        proof {
            assert(tag@ =~= t@.skip(8));
        }
        scene.ending = Some(string_of(&tag));
        return Parser { scenes, id, scene, section };
    }
    match section {
        Section::Art => {
            let ghost a0 = scene.art@;
            append_chars(&mut scene.art, line);
            push_char(&mut scene.art, '\n');
            proof {
                assert(scene.art@ =~= a0 + line@.push('\n'));
            }
        },
        Section::Text => {
            let ghost a0 = scene.text@;
            append_chars(&mut scene.text, line);
            push_char(&mut scene.text, '\n');
            proof {
                assert(scene.text@ =~= a0 + line@.push('\n'));
            }
        },
        Section::Choices => {
            match find_arrow(line) {
                Some(i) => {
                    let label = trim_chars(&sub_chars(line, 0, i));
                    let target = trim_chars(&sub_chars(line, i + 2, line.len()));
                    proof {
                        assert(line@.subrange(0, i as int) =~= line@.take(i as int));
                        assert(line@.subrange(i + 2, line@.len() as int) =~= line@.skip(i + 2));
                    }
                    let ghost c0 = scene.choices@;
                    scene.choices.push((string_of(&label), string_of(&target)));
                    proof {
                        assert(choices_view(scene.choices@) =~= choices_view(c0).push(
                            (label@, target@),
                        ));
                    }
                },
                None => {},
            }
        },
        Section::Outside => {},
    }
    Parser { scenes, id, scene, section }
}

/// A word that has begun before `i` is among the words of `s[i..]`: the
/// words from `i` on are never empty when `cur` is not.
proof fn lemma_words_keep_current(s: Seq<char>, i: int, cur: Seq<char>)
    requires
        0 <= i <= s.len(),
        cur.len() > 0,
    ensures
        words_from(s, i, cur).len() > 0,
    decreases s.len() - i,
{
    if i < s.len() && !is_ws(s[i]) {
        lemma_words_keep_current(s, i + 1, cur.push(s[i]));
    }
}

/// The story that the text `src` describes.
pub fn parse_story(src: &str) -> (story: Story)
    ensures
        story@ == story_of(src@),
        story.well_formed(),
{
    let cs = chars_of(src);
    let ls = split_lines(&cs);
    let ghost lv = seqs_of(ls@);
    let mut p = Parser {
        scenes: Vec::new(),
        id: Vec::new(),
        scene: Scene::new(),
        section: Section::Outside,
    };
    proof {
        assert(entries_view(p.scenes@) =~= Seq::<(Seq<char>, SceneModel)>::empty());
        assert(p.id@ =~= Seq::<char>::empty());
        assert(lv.skip(0) =~= lv);
    }
    let n = ls.len();
    for k in 0..n
        invariant
            n == ls.len(),
            lv == seqs_of(ls@),
            lv == lines_seq(src@),
            parse_lines(initial_parse(), lv) == parse_lines(parser_view(&p), lv.skip(k as int)),
            unique_ids(entries_view(p.scenes@)),
    {
        proof {
            assert(lv.skip(k as int).drop_first() =~= lv.skip(k + 1));
            assert(lv.skip(k as int)[0] == ls@[k as int]@);
        }
        p = feed_line(p, &ls[k]);
    }
    proof {
        assert(lv.skip(n as int) =~= Seq::<Seq<char>>::empty());
    }
    let Parser { mut scenes, id, scene, section } = p;
    if id.len() > 0 {
        let key = string_of(&id);
        store_scene(&mut scenes, key, scene);
    }
    Story { scenes }
}

/// Whether every scene of `es` has a nonempty id.
pub open spec fn ids_not_empty(es: Entries) -> bool {
    forall|i: int| 0 <= i < es.len() ==> (#[trigger] es[i]).0.len() > 0
}

proof fn lemma_upsert_ids_not_empty(es: Entries, id: Seq<char>, sc: SceneModel)
    requires
        ids_not_empty(es),
        id.len() > 0,
    ensures
        ids_not_empty(upsert(es, id, sc)),
{
    let u = upsert(es, id, sc);
    assert forall|i: int| 0 <= i < u.len() implies (#[trigger] u[i]).0.len() > 0 by {
        if has_scene(es, id) {
            let k = scene_index(es, id);
            if i != k {
                assert(u[i] == es[i]);
            }
        } else {
            if i < es.len() {
                assert(u[i] == es[i]);
            }
        }
    }
}

proof fn lemma_parse_lines_ids_not_empty(st: ParseModel, ls: Seq<Seq<char>>)
    requires
        ids_not_empty(st.scenes),
    ensures
        ids_not_empty(parse_lines(st, ls).scenes),
    decreases ls.len(),
{
    if ls.len() > 0 {
        let next = parse_line(st, ls[0]);
        if begins_with(ls[0], header_mark()) && st.id.len() > 0 {
            lemma_upsert_ids_not_empty(st.scenes, st.id, st.scene);
        }
        assert(ids_not_empty(next.scenes));
        lemma_parse_lines_ids_not_empty(next, ls.drop_first());
    }
}

/// Every scene of a parsed story has a nonempty id: a header whose id is
/// blank opens no scene of its own.
pub proof fn lemma_parsed_ids_not_empty(src: Seq<char>)
    ensures
        ids_not_empty(story_of(src)),
{
    let st = parse_lines(initial_parse(), lines_seq(src));
    lemma_parse_lines_ids_not_empty(initial_parse(), lines_seq(src));
    if st.id.len() > 0 {
        lemma_upsert_ids_not_empty(st.scenes, st.id, st.scene);
    }
}

/// Storing a scene under an id that is already taken replaces that scene
/// and keeps the others and their order; storing it under a new id adds it
/// at the end.
pub proof fn lemma_upsert_replaces(es: Entries, id: Seq<char>, sc: SceneModel)
    requires
        unique_ids(es),
    ensures
        unique_ids(upsert(es, id, sc)),
        has_scene(upsert(es, id, sc), id),
        scene_of(upsert(es, id, sc), id) == sc,
        forall|other: Seq<char>|
            other != id ==> (has_scene(upsert(es, id, sc), other) == has_scene(es, other)),
        forall|other: Seq<char>|
            other != id && has_scene(es, other) ==> scene_of(upsert(es, id, sc), other)
                == scene_of(es, other),
        has_scene(es, id) ==> upsert(es, id, sc).len() == es.len(),
        !has_scene(es, id) ==> upsert(es, id, sc).len() == es.len() + 1,
{
    let u = upsert(es, id, sc);
    if has_scene(es, id) {
        let k = scene_index(es, id);
        assert(u[k].0 == id);
        assert forall|i: int, j: int|
            0 <= i < u.len() && 0 <= j < u.len() && (#[trigger] u[i]).0 == (#[trigger] u[j]).0
            implies i == j by {
            assert(es[i].0 == u[i].0 && es[j].0 == u[j].0);
        }
    } else {
        assert(u[es.len() as int].0 == id);
        assert forall|i: int, j: int|
            0 <= i < u.len() && 0 <= j < u.len() && (#[trigger] u[i]).0 == (#[trigger] u[j]).0
            implies i == j by {
            if i < es.len() && j < es.len() {
                assert(es[i].0 == u[i].0 && es[j].0 == u[j].0);
            } else if i < es.len() {
                assert(es[i].0 == id);
            } else if j < es.len() {
                assert(es[j].0 == id);
            }
        }
    }
    let ki = scene_index(u, id);
    assert(u[ki].0 == id);
    assert forall|other: Seq<char>| other != id implies (has_scene(u, other) == has_scene(es, other))
        by {
        if has_scene(u, other) {
            let i = choose|i: int| 0 <= i < u.len() && (#[trigger] u[i]).0 == other;
            assert(es[i].0 == other);
        }
        if has_scene(es, other) {
            let i = choose|i: int| 0 <= i < es.len() && (#[trigger] es[i]).0 == other;
            assert(u[i].0 == other);
        }
    }
    assert forall|other: Seq<char>| other != id && has_scene(es, other) implies scene_of(u, other)
        == scene_of(es, other) by {
        let i = scene_index(es, other);
        assert(es[i].0 == other);
        assert(u[i] == es[i]);
        let j = scene_index(u, other);
        assert(u[j].0 == other);
    }
}

proof fn lemma_parse_lines_concat(st: ParseModel, l1: Seq<Seq<char>>, l2: Seq<Seq<char>>)
    ensures
        parse_lines(st, l1 + l2) == parse_lines(parse_lines(st, l1), l2),
    decreases l1.len(),
{
    if l1.len() == 0 {
        assert(l1 + l2 =~= l2);
    } else {
        assert((l1 + l2).drop_first() =~= l1.drop_first() + l2);
        assert((l1 + l2)[0] == l1[0]);
        lemma_parse_lines_concat(parse_line(st, l1[0]), l1.drop_first(), l2);
    }
}

/// Whether every `=== ` line among `ls` names a scene (its trimmed id is not
/// empty).
pub open spec fn headers_named(ls: Seq<Seq<char>>) -> bool {
    forall|i: int|
        0 <= i < ls.len() && begins_with(#[trigger] ls[i], header_mark()) ==> trim_seq(
            ls[i].skip(4),
        ).len() > 0
}

/// Whether the first line of `s` is a `=== ` line.
pub open spec fn opens_with_header(s: Seq<char>) -> bool {
    lines_seq(s).len() > 0 && begins_with(lines_seq(s)[0], header_mark())
}

proof fn lemma_id_stays(st: ParseModel, ls: Seq<Seq<char>>)
    requires
        st.id.len() > 0,
        headers_named(ls),
    ensures
        parse_lines(st, ls).id.len() > 0,
    decreases ls.len(),
{
    if ls.len() > 0 {
        assert forall|i: int|
            0 <= i < ls.drop_first().len() && begins_with(
                #[trigger] ls.drop_first()[i],
                header_mark(),
            ) implies trim_seq(ls.drop_first()[i].skip(4)).len() > 0 by {
            assert(ls.drop_first()[i] == ls[i + 1]);
        }
        assert(begins_with(ls[0], header_mark()) ==> trim_seq(ls[0].skip(4)).len() > 0);
        lemma_id_stays(parse_line(st, ls[0]), ls.drop_first());
    }
}

proof fn lemma_upsert_keys(es: Entries, id: Seq<char>, sc: SceneModel, x: Seq<char>)
    requires
        has_scene(es, x) || x == id,
    ensures
        has_scene(upsert(es, id, sc), x),
{
    let u = upsert(es, id, sc);
    if has_scene(es, id) {
        let k = scene_index(es, id);
        assert(u[k].0 == id);
        if x != id {
            let i = choose|i: int| 0 <= i < es.len() && (#[trigger] es[i]).0 == x;
            assert(u[i].0 == x);
        }
    } else {
        assert(u[es.len() as int].0 == id);
        if x != id {
            let i = choose|i: int| 0 <= i < es.len() && (#[trigger] es[i]).0 == x;
            assert(u[i].0 == x);
        }
    }
}

proof fn lemma_keys_kept(st: ParseModel, ls: Seq<Seq<char>>, x: Seq<char>)
    requires
        has_scene(st.scenes, x) || (x == st.id && st.id.len() > 0),
    ensures
        has_scene(finish_parse(parse_lines(st, ls)), x),
    decreases ls.len(),
{
    if ls.len() == 0 {
        if st.id.len() > 0 {
            lemma_upsert_keys(st.scenes, st.id, st.scene, x);
        }
    } else {
        let next = parse_line(st, ls[0]);
        if begins_with(ls[0], header_mark()) && st.id.len() > 0 {
            lemma_upsert_keys(st.scenes, st.id, st.scene, x);
        }
        lemma_keys_kept(next, ls.drop_first(), x);
    }
}

proof fn lemma_upsert_prefix(p: Entries, q: Entries, id: Seq<char>, sc: SceneModel)
    requires
        unique_ids(q),
        !has_scene(p, id),
    ensures
        upsert(p + q, id, sc) == p + upsert(q, id, sc),
{
    let pq = p + q;
    if has_scene(q, id) {
        let j = scene_index(q, id);
        assert(q[j].0 == id);
        assert(pq[p.len() + j].0 == id);
        assert(has_scene(pq, id));
        let k = scene_index(pq, id);
        assert(pq[k].0 == id);
        if k < p.len() {
            assert(p[k].0 == id);
        }
        assert(q[k - p.len()].0 == id);
        assert(k - p.len() == j);
        assert(upsert(pq, id, sc) =~= p + upsert(q, id, sc));
    } else {
        if has_scene(pq, id) {
            let k = choose|k: int| 0 <= k < pq.len() && (#[trigger] pq[k]).0 == id;
            if k < p.len() {
                assert(p[k].0 == id);
            } else {
                assert(q[k - p.len()].0 == id);
            }
        }
        assert(upsert(pq, id, sc) =~= p + upsert(q, id, sc));
    }
}

proof fn lemma_parse_line_unique(st: ParseModel, line: Seq<char>)
    requires
        unique_ids(st.scenes),
    ensures
        unique_ids(parse_line(st, line).scenes),
{
    if begins_with(line, header_mark()) && st.id.len() > 0 {
        lemma_upsert_replaces(st.scenes, st.id, st.scene);
    }
}

proof fn lemma_parse_with_prefix(p: Entries, b: ParseModel, ls: Seq<Seq<char>>)
    requires
        unique_ids(b.scenes),
        forall|x: Seq<char>|
            has_scene(finish_parse(parse_lines(b, ls)), x) ==> !has_scene(p, x),
    ensures
        finish_parse(parse_lines(ParseModel { scenes: p + b.scenes, ..b }, ls)) == p
            + finish_parse(parse_lines(b, ls)),
    decreases ls.len(),
{
    let a = ParseModel { scenes: p + b.scenes, ..b };
    if ls.len() == 0 {
        if b.id.len() > 0 {
            lemma_keys_kept(b, ls, b.id);
            lemma_upsert_prefix(p, b.scenes, b.id, b.scene);
        }
    } else {
        let l = ls[0];
        let b2 = parse_line(b, l);
        let a2 = parse_line(a, l);
        if begins_with(l, header_mark()) && b.id.len() > 0 {
            lemma_keys_kept(b, ls, b.id);
            lemma_upsert_prefix(p, b.scenes, b.id, b.scene);
        }
        assert(a2 == ParseModel { scenes: p + b2.scenes, ..b2 });
        lemma_parse_line_unique(b, l);
        lemma_parse_with_prefix(p, b2, ls.drop_first());
    }
}

/// A story can be written in two files: when the first ends with a line
/// break, both open with a `=== ` line, every `=== ` line of the first names
/// a scene, and no id is used in both, the story of the two texts one after
/// the other holds the scenes of the first and then those of the second.
pub proof fn lemma_story_concat(s1: Seq<char>, s2: Seq<char>)
    requires
        s1.len() > 0,
        s1.last() == '\n',
        opens_with_header(s1),
        opens_with_header(s2),
        headers_named(lines_seq(s1)),
        forall|x: Seq<char>| has_scene(story_of(s1), x) ==> !has_scene(story_of(s2), x),
    ensures
        story_of(s1 + s2) == story_of(s1) + story_of(s2),
{
    let l1 = lines_seq(s1);
    let l2 = lines_seq(s2);
    let init = initial_parse();
    lemma_lines_concat(s1, s2);
    lemma_parse_lines_concat(init, l1, l2);
    let first = parse_line(init, l1[0]);
    assert(trim_seq(l1[0].skip(4)).len() > 0);
    assert(first.id.len() > 0);
    lemma_id_stays(first, l1.drop_first());
    let st1 = parse_lines(init, l1);
    assert(st1 == parse_lines(first, l1.drop_first()));
    assert(st1.id.len() > 0);
    let c = parse_line(st1, l2[0]);
    let d = parse_line(init, l2[0]);
    assert(c.scenes == story_of(s1));
    assert(d.scenes =~= Seq::<(Seq<char>, SceneModel)>::empty());
    assert(story_of(s1) + d.scenes =~= story_of(s1));
    assert(c == ParseModel { scenes: story_of(s1) + d.scenes, ..d });
    assert(story_of(s2) == finish_parse(parse_lines(d, l2.drop_first())));
    assert(parse_lines(st1, l2) == parse_lines(c, l2.drop_first()));
    assert forall|x: Seq<char>|
        has_scene(finish_parse(parse_lines(d, l2.drop_first())), x) implies !has_scene(
        story_of(s1),
        x,
    ) by {}
    lemma_parse_with_prefix(story_of(s1), d, l2.drop_first());
}

/// Whether `l` can stand as a plain line inside a section: one line, no
/// `@`, and not beginning with `=`.
pub open spec fn plain_line(l: Seq<char>) -> bool {
    &&& simple_line(l)
    &&& !l.contains('@')
    &&& (l.len() == 0 || l[0] != '=')
}

proof fn lemma_plain_line_step(st: ParseModel, l: Seq<char>)
    requires
        plain_line(l),
    ensures
        st.section == Section::Art ==> parse_line(st, l) == (ParseModel {
            scene: SceneModel { art: st.scene.art + l.push('\n'), ..st.scene },
            ..st
        }),
        st.section == Section::Text ==> parse_line(st, l) == (ParseModel {
            scene: SceneModel { text: st.scene.text + l.push('\n'), ..st.scene },
            ..st
        }),
        !begins_with(l, header_mark()),
        !begins_with(trim_seq(l), art_mark()),
        trim_seq(l) != text_mark(),
        trim_seq(l) != choices_mark(),
        !begins_with(trim_seq(l), ending_mark()),
{
    if l.len() >= 4 {
        assert(l.take(4)[0] == l[0]);
    }
    let t = trim_seq(l);
    lemma_trim_keeps_out(l, '@');
    if t.len() > 0 && t[0] == '@' {
        assert(t.contains('@'));
    }
    if t.len() >= 4 {
        assert(t.take(4)[0] == t[0]);
    }
    if t.len() >= 8 {
        assert(t.take(8)[0] == t[0]);
    }
    assert(text_mark()[0] == '@');
    assert(choices_mark()[0] == '@');
}

proof fn lemma_plain_lines(st: ParseModel, ls: Seq<Seq<char>>)
    requires
        st.id.len() > 0,
        st.section == Section::Text || st.section == Section::Art,
        forall|k: int| 0 <= k < ls.len() ==> plain_line(#[trigger] ls[k]),
    ensures
        st.section == Section::Text ==> finish_parse(parse_lines(st, ls)) == upsert(
            st.scenes,
            st.id,
            SceneModel { text: st.scene.text + joined_lines(ls), ..st.scene },
        ),
        st.section == Section::Art ==> finish_parse(parse_lines(st, ls)) == upsert(
            st.scenes,
            st.id,
            SceneModel { art: st.scene.art + joined_lines(ls), ..st.scene },
        ),
        st.section == Section::Text ==> parse_lines(st, ls) == (ParseModel {
            scene: SceneModel { text: st.scene.text + joined_lines(ls), ..st.scene },
            ..st
        }),
        st.section == Section::Art ==> parse_lines(st, ls) == (ParseModel {
            scene: SceneModel { art: st.scene.art + joined_lines(ls), ..st.scene },
            ..st
        }),
    decreases ls.len(),
{
    if ls.len() == 0 {
        assert(st.scene.text + joined_lines(ls) =~= st.scene.text);
        assert(st.scene.art + joined_lines(ls) =~= st.scene.art);
    } else {
        let l = ls[0];
        let rest = ls.drop_first();
        assert(plain_line(l));
        assert(forall|k: int| 0 <= k < rest.len() ==> rest[k] == ls[k + 1]);
        lemma_plain_line_step(st, l);
        let st2 = parse_line(st, l);
        lemma_plain_lines(st2, rest);
        assert(joined_lines(ls) == l.push('\n') + joined_lines(rest));
        assert(st.scene.text + l.push('\n') + joined_lines(rest) =~= st.scene.text
            + joined_lines(ls));
        assert(st.scene.art + l.push('\n') + joined_lines(rest) =~= st.scene.art
            + joined_lines(ls));
    }
}

proof fn lemma_words_solid(s: Seq<char>, i: int)
    requires
        s.len() > 0,
        0 <= i <= s.len(),
        forall|j: int| 0 <= j < s.len() ==> !is_ws(#[trigger] s[j]),
    ensures
        words_from(s, i, s.take(i)) == seq![s],
    decreases s.len() - i,
{
    if i < s.len() {
        assert(s.take(i).push(s[i]) =~= s.take(i + 1));
        lemma_words_solid(s, i + 1);
    } else {
        assert(s.take(i) =~= s);
    }
}

/// The section that the mark `mark` opens.
spec fn section_of_mark(mark: Seq<char>) -> Section {
    if mark == text_mark() {
        Section::Text
    } else if mark == art_mark() {
        Section::Art
    } else {
        Section::Choices
    }
}

/// The parser right after `=== id` and a section mark opening `sec`.
spec fn opened(id: Seq<char>, sec: Section) -> ParseModel {
    ParseModel { scenes: seq![], id: id, scene: empty_scene(), section: sec }
}

proof fn lemma_scene_opening(id: Seq<char>, mark: Seq<char>, ls: Seq<Seq<char>>)
    requires
        id.len() > 0,
        forall|i: int| 0 <= i < id.len() ==> !is_ws(#[trigger] id[i]),
        mark == text_mark() || mark == art_mark() || mark == choices_mark(),
        forall|k: int| 0 <= k < ls.len() ==> simple_line(#[trigger] ls[k]),
    ensures
        story_of(seq!['=', '=', '=', ' '] + id + seq!['\n'] + mark.push('\n') + joined_lines(ls))
            == finish_parse(parse_lines(opened(id, section_of_mark(mark)), ls)),
{
    let hdr = seq!['=', '=', '=', ' '] + id;
    let all = seq![hdr, mark] + ls;
    let src = seq!['=', '=', '=', ' '] + id + seq!['\n'] + mark.push('\n') + joined_lines(ls);
    assert(all[0] == hdr && all[1] == mark);
    assert(all.drop_first()[0] == mark);
    assert(all.drop_first().drop_first() =~= ls);
    assert(joined_lines(all.drop_first()) == mark.push('\n') + joined_lines(ls));
    assert(joined_lines(all) == hdr.push('\n') + joined_lines(all.drop_first()));
    assert(src =~= joined_lines(all));
    assert(!hdr.contains('\n')) by {
        if hdr.contains('\n') {
            let j = choose|j: int| 0 <= j < hdr.len() && hdr[j] == '\n';
            if j >= 4 {
                assert(hdr[j] == id[j - 4]);
            }
        }
    }
    assert(hdr.last() == id.last());
    assert(!mark.contains('\n')) by {
        if mark.contains('\n') {
            let j = choose|j: int| 0 <= j < mark.len() && mark[j] == '\n';
        }
    }
    assert forall|k: int| 0 <= k < all.len() implies simple_line(#[trigger] all[k]) by {
        if k >= 2 {
            assert(all[k] == ls[k - 2]);
        }
    }
    lemma_lines_of_joined(all);
    assert(lines_seq(src) == all);
    let init = initial_parse();
    assert(hdr.take(4) =~= header_mark());
    assert(hdr.skip(4) =~= id);
    lemma_trim_solid(id);
    let st1 = parse_line(init, hdr);
    assert(st1 == ParseModel { id: id, section: Section::Outside, ..init });
    assert forall|i: int| 0 <= i < mark.len() implies !is_ws(#[trigger] mark[i]) by {}
    lemma_trim_solid(mark);
    assert(mark[0] == '@');
    assert(!begins_with(mark, header_mark())) by {
        if begins_with(mark, header_mark()) {
            assert(mark.take(4)[0] == mark[0]);
        }
    }
    let st2 = parse_line(st1, mark);
    if mark == text_mark() {
        assert(mark.take(4)[1] != art_mark()[1]);
        assert(st2 == opened(id, Section::Text));
    } else if mark == art_mark() {
        let ws = words_seq(mark);
        assert(mark.take(0) =~= Seq::<char>::empty());
        lemma_words_solid(mark, 0);
        assert(ws == seq![mark]);
        assert(ws.drop_first() =~= Seq::<Seq<char>>::empty());
        assert(art_gradient(mark) is None);
        assert(mark.take(4) =~= art_mark());
        assert(begins_with(trim_seq(mark), art_mark()));
        assert(st2.scene == st1.scene);
        assert(st2 == opened(id, Section::Art));
    } else {
        assert(mark.take(4)[1] != art_mark()[1]);
        assert(mark.len() != text_mark().len());
        assert(st2 == opened(id, Section::Choices));
    }
    assert(parse_lines(init, all) == parse_lines(st1, all.drop_first()));
    assert(parse_lines(st1, all.drop_first()) == parse_lines(st2, ls));
}

/// Every line of a scene's text is kept, blank lines included: a scene
/// `id` whose text section holds the plain lines `ls` gets as its text those
/// lines, each followed by a line break (so one line break per line).
pub proof fn lemma_text_keeps_every_line(id: Seq<char>, ls: Seq<Seq<char>>)
    requires
        id.len() > 0,
        forall|i: int| 0 <= i < id.len() ==> !is_ws(#[trigger] id[i]),
        forall|k: int| 0 <= k < ls.len() ==> plain_line(#[trigger] ls[k]),
    ensures
        story_of(
            seq!['=', '=', '=', ' '] + id + seq!['\n', '@', 't', 'e', 'x', 't', '\n']
                + joined_lines(ls),
        ) == seq![
            (
                id,
                (SceneModel {
                    art: seq![],
                    grad: None,
                    text: joined_lines(ls),
                    choices: seq![],
                    ending: None,
                }),
            ),
        ],
{
    lemma_scene_opening(id, text_mark(), ls);
    assert(seq!['=', '=', '=', ' '] + id + seq!['\n'] + text_mark().push('\n') =~= seq![
        '=',
        '=',
        '=',
        ' ',
    ] + id + seq!['\n', '@', 't', 'e', 'x', 't', '\n']);
    let st = opened(id, Section::Text);
    lemma_plain_lines(st, ls);
    assert(seq![] + joined_lines(ls) =~= joined_lines(ls));
}

/// Every line of a scene's art is kept, blank lines included: a scene `id`
/// whose art section holds the plain lines `ls` gets as its art those lines,
/// each followed by a line break, and no gradient.
pub proof fn lemma_art_keeps_every_line(id: Seq<char>, ls: Seq<Seq<char>>)
    requires
        id.len() > 0,
        forall|i: int| 0 <= i < id.len() ==> !is_ws(#[trigger] id[i]),
        forall|k: int| 0 <= k < ls.len() ==> plain_line(#[trigger] ls[k]),
    ensures
        story_of(
            seq!['=', '=', '=', ' '] + id + seq!['\n', '@', 'a', 'r', 't', '\n'] + joined_lines(ls),
        ) == seq![
            (
                id,
                (SceneModel {
                    art: joined_lines(ls),
                    grad: None,
                    text: seq![],
                    choices: seq![],
                    ending: None,
                }),
            ),
        ],
{
    lemma_scene_opening(id, art_mark(), ls);
    assert(seq!['=', '=', '=', ' '] + id + seq!['\n'] + art_mark().push('\n') =~= seq![
        '=',
        '=',
        '=',
        ' ',
    ] + id + seq!['\n', '@', 'a', 'r', 't', '\n']);
    let st = opened(id, Section::Art);
    lemma_plain_lines(st, ls);
    assert(seq![] + joined_lines(ls) =~= joined_lines(ls));
}

/// The line `label->target` of a choice.
pub open spec fn choice_line(c: (Seq<char>, Seq<char>)) -> Seq<char> {
    c.0 + seq!['-', '>'] + c.1
}

/// The choice that the line `label->target` gives: both sides trimmed.
pub open spec fn choice_read(c: (Seq<char>, Seq<char>)) -> (Seq<char>, Seq<char>) {
    (trim_seq(c.0), trim_seq(c.1))
}

/// Whether a label and a target can be written as one choice line: no line
/// break, no `@`, no `-` in the label, the label not starting with `=`, and
/// the target not ending with a carriage return.
pub open spec fn choice_ok(c: (Seq<char>, Seq<char>)) -> bool {
    &&& !c.0.contains('-')
    &&& !c.0.contains('@')
    &&& !c.0.contains('\n')
    &&& (c.0.len() == 0 || c.0[0] != '=')
    &&& !c.1.contains('@')
    &&& simple_line(c.1)
}

proof fn lemma_arrow_after_label(l: Seq<char>, n: int, i: int)
    requires
        0 <= i <= n,
        n + 1 < l.len(),
        l[n] == '-' && l[n + 1] == '>',
        forall|j: int| 0 <= j < n ==> l[j] != '-',
    ensures
        arrow_from(l, i) == Some(n),
    decreases n - i,
{
    if i < n {
        lemma_arrow_after_label(l, n, i + 1);
    }
}

proof fn lemma_choice_line_facts(c: (Seq<char>, Seq<char>))
    requires
        choice_ok(c),
    ensures
        plain_line(choice_line(c)),
        arrow_from(choice_line(c), 0) == Some(c.0.len() as int),
        choice_line(c).take(c.0.len() as int) == c.0,
        choice_line(c).skip(c.0.len() as int + 2) == c.1,
{
    let l = choice_line(c);
    let n = c.0.len() as int;
    assert(l[n] == '-' && l[n + 1] == '>');
    assert forall|j: int| 0 <= j < n implies l[j] != '-' by {
        assert(l[j] == c.0[j]);
        if l[j] == '-' {
            assert(c.0.contains('-'));
        }
    }
    lemma_arrow_after_label(l, n, 0);
    assert(l.take(n) =~= c.0);
    assert(l.skip(n + 2) =~= c.1);
    if l.contains('\n') {
        let j = choose|j: int| 0 <= j < l.len() && l[j] == '\n';
        if j < n {
            assert(c.0[j] == '\n');
        } else if j >= n + 2 {
            assert(c.1[j - n - 2] == '\n');
        }
    }
    if l.contains('@') {
        let j = choose|j: int| 0 <= j < l.len() && l[j] == '@';
        if j < n {
            assert(c.0[j] == '@');
        } else if j >= n + 2 {
            assert(c.1[j - n - 2] == '@');
        }
    }
    if c.1.len() > 0 {
        assert(l.last() == c.1.last());
    }
    if n > 0 {
        assert(l[0] == c.0[0]);
    }
}

proof fn lemma_choice_lines(st: ParseModel, cs: Seq<(Seq<char>, Seq<char>)>)
    requires
        st.section == Section::Choices,
        forall|k: int| 0 <= k < cs.len() ==> choice_ok(#[trigger] cs[k]),
    ensures
        parse_lines(st, cs.map_values(|c: (Seq<char>, Seq<char>)| choice_line(c))) == (
        ParseModel {
            scene: SceneModel {
                choices: st.scene.choices + cs.map_values(
                    |c: (Seq<char>, Seq<char>)| choice_read(c),
                ),
                ..st.scene
            },
            ..st
        }),
    decreases cs.len(),
{
    let ls = cs.map_values(|c: (Seq<char>, Seq<char>)| choice_line(c));
    let rs = cs.map_values(|c: (Seq<char>, Seq<char>)| choice_read(c));
    if cs.len() == 0 {
        assert(st.scene.choices + rs =~= st.scene.choices);
        assert(ls.len() == 0);
    } else {
        let c = cs[0];
        let rest = cs.drop_first();
        assert(choice_ok(c));
        assert(forall|k: int| 0 <= k < rest.len() ==> rest[k] == cs[k + 1]);
        lemma_choice_line_facts(c);
        let l = choice_line(c);
        lemma_plain_line_step(st, l);
        let st2 = parse_line(st, l);
        assert(st2 == ParseModel {
            scene: SceneModel { choices: st.scene.choices.push(choice_read(c)), ..st.scene },
            ..st
        });
        lemma_choice_lines(st2, rest);
        assert(ls[0] == l);
        assert(ls.drop_first() =~= rest.map_values(|c: (Seq<char>, Seq<char>)| choice_line(c)));
        assert(st.scene.choices.push(choice_read(c)) + rest.map_values(
            |c: (Seq<char>, Seq<char>)| choice_read(c),
        ) =~= st.scene.choices + rs);
    }
}

/// Choices are read in order, one per line `label->target`, each side
/// trimmed: a scene `id` whose choices section holds the lines of the
/// choices `cs` gets exactly those choices.
pub proof fn lemma_choices_read_in_order(id: Seq<char>, cs: Seq<(Seq<char>, Seq<char>)>)
    requires
        id.len() > 0,
        forall|i: int| 0 <= i < id.len() ==> !is_ws(#[trigger] id[i]),
        forall|k: int| 0 <= k < cs.len() ==> choice_ok(#[trigger] cs[k]),
    ensures
        story_of(
            seq!['=', '=', '=', ' '] + id + seq!['\n', '@', 'c', 'h', 'o', 'i', 'c', 'e', 's', '\n']
                + joined_lines(cs.map_values(|c: (Seq<char>, Seq<char>)| choice_line(c))),
        ) == seq![
            (
                id,
                (SceneModel {
                    art: seq![],
                    grad: None,
                    text: seq![],
                    choices: cs.map_values(|c: (Seq<char>, Seq<char>)| choice_read(c)),
                    ending: None,
                }),
            ),
        ],
{
    let ls = cs.map_values(|c: (Seq<char>, Seq<char>)| choice_line(c));
    assert forall|k: int| 0 <= k < ls.len() implies simple_line(#[trigger] ls[k]) by {
        assert(choice_ok(cs[k]));
        lemma_choice_line_facts(cs[k]);
    }
    lemma_scene_opening(id, choices_mark(), ls);
    assert(seq!['=', '=', '=', ' '] + id + seq!['\n'] + choices_mark().push('\n') =~= seq![
        '=',
        '=',
        '=',
        ' ',
    ] + id + seq!['\n', '@', 'c', 'h', 'o', 'i', 'c', 'e', 's', '\n']);
    let st = opened(id, Section::Choices);
    lemma_choice_lines(st, cs);
    assert(seq![] + cs.map_values(|c: (Seq<char>, Seq<char>)| choice_read(c)) =~= cs.map_values(
        |c: (Seq<char>, Seq<char>)| choice_read(c),
    ));
}

proof fn lemma_trim_firm_ends(s: Seq<char>)
    requires
        s.len() > 0,
        !is_ws(s[0]),
        !is_ws(s.last()),
    ensures
        trim_seq(s) == s,
{
    assert(trim_start_seq(s) == s);
}

/// The ending tag is read as written: a scene `id` with the line
/// `@ending tag` ends the story with `tag`.
pub proof fn lemma_ending_read(id: Seq<char>, tag: Seq<char>)
    requires
        id.len() > 0,
        forall|i: int| 0 <= i < id.len() ==> !is_ws(#[trigger] id[i]),
        tag.len() > 0,
        !tag.contains('\n'),
        !is_ws(tag.last()),
    ensures
        story_of(
            seq!['=', '=', '=', ' '] + id + seq!['\n', '@', 'e', 'n', 'd', 'i', 'n', 'g', ' '] + tag
                + seq!['\n'],
        ) == seq![
            (
                id,
                (SceneModel {
                    art: seq![],
                    grad: None,
                    text: seq![],
                    choices: seq![],
                    ending: Some(tag),
                }),
            ),
        ],
{
    let hdr = seq!['=', '=', '=', ' '] + id;
    let e = ending_mark() + tag;
    let all = seq![hdr, e];
    let src = seq!['=', '=', '=', ' '] + id + seq!['\n', '@', 'e', 'n', 'd', 'i', 'n', 'g', ' '] + tag
        + seq!['\n'];
    assert(all.drop_first() =~= seq![e]);
    assert(seq![e].drop_first() =~= Seq::<Seq<char>>::empty());
    assert(joined_lines(seq![e].drop_first()) == Seq::<char>::empty());
    assert(joined_lines(seq![e]) == e.push('\n') + joined_lines(seq![e].drop_first()));
    assert(joined_lines(seq![e]) =~= e.push('\n'));
    assert(joined_lines(all) == hdr.push('\n') + joined_lines(all.drop_first()));
    assert(src =~= joined_lines(all));
    assert(!hdr.contains('\n')) by {
        if hdr.contains('\n') {
            let j = choose|j: int| 0 <= j < hdr.len() && hdr[j] == '\n';
            if j >= 4 {
                assert(hdr[j] == id[j - 4]);
            }
        }
    }
    assert(hdr.last() == id.last());
    assert(!e.contains('\n')) by {
        if e.contains('\n') {
            let j = choose|j: int| 0 <= j < e.len() && e[j] == '\n';
            if j >= 8 {
                assert(tag[j - 8] == '\n');
            }
        }
    }
    assert(e.last() == tag.last());
    assert forall|k: int| 0 <= k < all.len() implies simple_line(#[trigger] all[k]) by {}
    lemma_lines_of_joined(all);
    assert(lines_seq(src) == all);
    let init = initial_parse();
    assert(hdr.take(4) =~= header_mark());
    assert(hdr.skip(4) =~= id);
    lemma_trim_solid(id);
    let st1 = parse_line(init, hdr);
    assert(st1 == ParseModel { id: id, section: Section::Outside, ..init });
    assert(e[0] == '@');
    lemma_trim_firm_ends(e);
    assert(!begins_with(e, header_mark())) by {
        if begins_with(e, header_mark()) {
            assert(e.take(4)[0] == e[0]);
        }
    }
    assert(e.take(4)[1] != art_mark()[1]);
    assert(e.len() != text_mark().len());
    assert(e.len() != choices_mark().len());
    assert(e.take(8) =~= ending_mark());
    assert(e.skip(8) =~= tag);
    let st2 = parse_line(st1, e);
    assert(st2.scene == SceneModel { ending: Some(tag), ..empty_scene() });
    assert(parse_lines(init, all) == parse_lines(st1, all.drop_first()));
    assert(parse_lines(st1, all.drop_first()) == parse_lines(st2, seq![]));
}

} // verus!
