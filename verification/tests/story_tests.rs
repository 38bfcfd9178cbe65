use deriva::check::validate;
use deriva::cli::{c64, parse_args};
use deriva::color::{colorize, hex};
use deriva::play::{
    art_lines, decide, ending_is_good, menu_labels, next_scene, scene_text, typewrite_step,
    Decision, Input,
};
use deriva::story::{parse_story, Scene};

const STORY: &str = "\
=== inicio
@art #5fd7ff #ff5fd7
   .-----------.
  /  DERIVA-7   \\
 '---------------'
@text
Você acorda na cabine da {c}DERIVA-7{0}. As luzes piscam em vermelho.
@choices
Ir até o reator -> reator
Procurar a cápsula de fuga -> capsula

=== reator
@text
O calor é quase insuportável.
@choices
Puxar a alavanca {g}verde{0} -> salvo
Puxar a alavanca {r}vermelha{0} -> explosao

=== capsula
@text
A porta emperrou.
@choices
Forçar a porta -> explosao
Voltar para a cabine -> inicio

=== salvo
@text
O reator se acalma.
@ending good

=== explosao
@text
Um clarão branco.
@ending bad
";

fn s(x: &str) -> String {
    x.to_string()
}

#[test]
fn story_is_consistent() {
    let scenes = parse_story(STORY);
    let errs = validate(&scenes);
    assert!(errs.is_empty(), "{errs:?}");
}

#[test]
fn hex_parses() {
    assert_eq!(hex("#ff0080"), Some((255, 0, 128)));
    assert_eq!(hex("nope"), None);
}

#[test]
fn hex_edge_cases() {
    assert_eq!(hex("#FF0080"), Some((255, 0, 128)));
    assert_eq!(hex("#123456"), Some((0x12, 0x34, 0x56)));
    // six base-16 digits, no sign
    assert_eq!(hex("#+fffff"), None);
    assert_eq!(hex("#-fffff"), None);
    assert_eq!(hex("#ff008"), None);
    assert_eq!(hex("#ff00800"), None);
    assert_eq!(hex("ff0080"), None);
    assert_eq!(hex("#gg0080"), None);
    assert_eq!(hex("#ééé"), None);
    assert_eq!(hex(""), None);
}

#[test]
fn parses_scene_parts() {
    let story = parse_story(STORY);
    assert_eq!(story.len(), 5);
    let start = story.get(&s("inicio")).unwrap();
    assert_eq!(start.grad, Some(((0x5f, 0xd7, 0xff), (0xff, 0x5f, 0xd7))));
    assert_eq!(start.art, "   .-----------.\n  /  DERIVA-7   \\\n '---------------'\n");
    assert_eq!(
        start.text,
        "Você acorda na cabine da {c}DERIVA-7{0}. As luzes piscam em vermelho.\n"
    );
    assert_eq!(
        start.choices,
        vec![
            (s("Ir até o reator"), s("reator")),
            (s("Procurar a cápsula de fuga"), s("capsula"))
        ]
    );
    assert_eq!(start.ending, None);
    let good = story.get(&s("salvo")).unwrap();
    assert_eq!(good.ending, Some(s("good")));
    assert!(good.choices.is_empty());
    assert!(story.get(&s("nada")).is_none());
    assert!(story.contains(&s("explosao")));
}

#[test]
fn parse_handles_crlf_and_trailing_text() {
    let story = parse_story("=== inicio\r\n@text\r\nOlá\r\n@choices\r\n  Ir  ->  fim  \r\n=== fim\r\n@ending bad");
    let start = story.get(&s("inicio")).unwrap();
    assert_eq!(start.text, "Olá\n");
    assert_eq!(start.choices, vec![(s("Ir"), s("fim"))]);
    let end = story.get(&s("fim")).unwrap();
    assert_eq!(end.ending, Some(s("bad")));
}

#[test]
fn later_scene_with_same_id_replaces_earlier() {
    let story = parse_story("=== a\n@ending bad\n=== b\n@ending bad\n=== a\n@ending good\n");
    assert_eq!(story.len(), 2);
    assert_eq!(story.get(&s("a")).unwrap().ending, Some(s("good")));
}

#[test]
fn text_before_first_scene_goes_to_first_scene() {
    let story = parse_story("@ending x\n=== a\n@text\nt\n");
    let a = story.get(&s("a")).unwrap();
    assert_eq!(a.ending, Some(s("x")));
    assert_eq!(a.text, "t\n");
}

#[test]
fn art_without_two_colors_keeps_gradient_off() {
    let story = parse_story("=== a\n@art #zzzzzz #112233\nx\n@ending good\n");
    let a = story.get(&s("a")).unwrap();
    assert_eq!(a.grad, None);
    assert_eq!(a.art, "x\n");
    let story = parse_story("=== a\n@art nope #010203 #040506 #070809\n@ending good\n");
    assert_eq!(story.get(&s("a")).unwrap().grad, Some(((1, 2, 3), (4, 5, 6))));
}

#[test]
fn choice_lines_without_arrow_are_ignored() {
    let story = parse_story("=== inicio\n@choices\nsem seta\nvai -> b\n=== b\n@ending good\n");
    let a = story.get(&s("inicio")).unwrap();
    assert_eq!(a.choices, vec![(s("vai"), s("b"))]);
}

#[test]
fn empty_header_is_not_a_scene() {
    let story = parse_story("===  \n@ending good\n");
    assert_eq!(story.len(), 0);
}

#[test]
fn validate_reports_missing_start() {
    let story = parse_story("=== a\n@ending good\n");
    let errs = validate(&story);
    assert_eq!(errs, vec![s("história precisa de uma cena chamada 'inicio'")]);
}

#[test]
fn validate_reports_dead_end() {
    let story = parse_story("=== inicio\n@text\nnada\n");
    let errs = validate(&story);
    assert_eq!(errs, vec![s("cena 'inicio' sem escolhas e sem @ending (beco sem saída)")]);
}

#[test]
fn validate_reports_broken_target() {
    let story = parse_story("=== inicio\n@choices\nir -> longe\nficar -> inicio\n");
    let errs = validate(&story);
    assert_eq!(errs, vec![s("cena 'inicio' aponta para 'longe' que não existe")]);
}

#[test]
fn validate_reports_everything_in_order() {
    let story = parse_story("=== a\n=== b\n@choices\nx -> c\ny -> d\n");
    let errs = validate(&story);
    assert_eq!(
        errs,
        vec![
            s("história precisa de uma cena chamada 'inicio'"),
            s("cena 'a' sem escolhas e sem @ending (beco sem saída)"),
            s("cena 'b' aponta para 'c' que não existe"),
            s("cena 'b' aponta para 'd' que não existe"),
        ]
    );
}

#[test]
fn colorize_replaces_tags() {
    assert_eq!(colorize("{c}a{y}b{g}c{r}d{m}e{w}f{0}"), "\x1b[36ma\x1b[33mb\x1b[32mc\x1b[31md\x1b[35me\x1b[97mf\x1b[0m");
    assert_eq!(colorize("sem tags"), "sem tags");
    assert_eq!(colorize("{x} {c"), "{x} {c");
    assert_eq!(colorize("{{c}}"), "{\x1b[36m}");
}

#[test]
fn menus_and_moves() {
    let story = parse_story(STORY);
    let start = story.get(&s("inicio")).unwrap();
    assert_eq!(
        menu_labels(start),
        vec![s("Ir até o reator"), s("Procurar a cápsula de fuga"), s("Recomeçar do início")]
    );
    assert_eq!(next_scene(start, Some(0)), Some(s("reator")));
    assert_eq!(next_scene(start, Some(1)), Some(s("capsula")));
    assert_eq!(next_scene(start, Some(2)), Some(s("inicio")));
    assert_eq!(next_scene(start, None), None);
    let end = story.get(&s("explosao")).unwrap();
    assert_eq!(menu_labels(end), vec![s("Jogar de novo"), s("Sair")]);
    assert_eq!(next_scene(end, Some(0)), Some(s("inicio")));
    assert_eq!(next_scene(end, Some(1)), None);
    assert_eq!(next_scene(end, None), None);
    assert_eq!(next_scene(end, Some(7)), None);
}

#[test]
fn endings_good_and_bad() {
    assert!(ending_is_good(&s("good")));
    assert!(!ending_is_good(&s("bad")));
    assert!(!ending_is_good(&s("Good")));
}

#[test]
fn art_and_text_for_display() {
    let story = parse_story(STORY);
    let start = story.get(&s("inicio")).unwrap();
    assert_eq!(art_lines(start), vec![s("   .-----------."), s("  /  DERIVA-7   \\"), s(" '---------------'")]);
    assert_eq!(
        scene_text(start),
        "Você acorda na cabine da \x1b[36mDERIVA-7\x1b[0m. As luzes piscam em vermelho."
    );
    let reator = story.get(&s("reator")).unwrap();
    assert!(art_lines(reator).is_empty());
    let mut blank = Scene::new();
    blank.art = s("   \n  \n");
    assert!(art_lines(&blank).is_empty());
}

#[test]
fn decisions_from_input() {
    let rows = vec![10u16, 11, 12];
    assert!(decide(&Input::Key { c: 'q', ctrl: false }, &rows) == Decision::Quit);
    assert!(decide(&Input::Key { c: 'c', ctrl: true }, &rows) == Decision::Quit);
    assert!(decide(&Input::Key { c: 'c', ctrl: false }, &rows) == Decision::Wait);
    assert!(decide(&Input::Esc, &rows) == Decision::Quit);
    assert!(decide(&Input::Key { c: '1', ctrl: false }, &rows) == Decision::Pick(0));
    assert!(decide(&Input::Key { c: '3', ctrl: false }, &rows) == Decision::Pick(2));
    assert!(decide(&Input::Key { c: '4', ctrl: false }, &rows) == Decision::Wait);
    assert!(decide(&Input::Key { c: '0', ctrl: false }, &rows) == Decision::Wait);
    assert!(decide(&Input::Click { row: 11 }, &rows) == Decision::Pick(1));
    assert!(decide(&Input::Click { row: 9 }, &rows) == Decision::Wait);
    assert!(decide(&Input::Other, &rows) == Decision::Wait);
    let same = vec![u16::MAX, u16::MAX];
    assert!(decide(&Input::Click { row: u16::MAX }, &same) == Decision::Pick(0));
}

#[test]
fn typewriter_pacing() {
    let st = typewrite_step(false, 'a', 15);
    assert!(!st.in_escape && st.flush && st.pause && !st.margin);
    let st = typewrite_step(false, ' ', 15);
    assert!(st.flush && !st.pause);
    let st = typewrite_step(false, 'a', 0);
    assert!(st.flush && !st.pause);
    let st = typewrite_step(false, '\n', 15);
    assert!(st.margin && st.flush && !st.pause);
    let st = typewrite_step(false, '\x1b', 15);
    assert!(st.in_escape && !st.flush && !st.pause);
    let st = typewrite_step(true, '[', 15);
    assert!(st.in_escape && !st.flush);
    let st = typewrite_step(true, 'm', 15);
    assert!(!st.in_escape && !st.flush && !st.pause);
}

#[test]
fn command_line_options() {
    let o = parse_args(&vec![s("--c64"), s("historia.txt"), s("--check")]);
    assert!(o.c64 && o.check_only && !o.help);
    assert!(c64(&o));
    assert_eq!(o.story_path, Some(s("historia.txt")));
    let o = parse_args(&vec![s("a.txt"), s("b.txt")]);
    assert_eq!(o.story_path, Some(s("b.txt")));
    assert!(!c64(&o));
    let o = parse_args(&vec![s("-h"), s("--c64")]);
    assert!(o.help && !o.c64);
    let o = parse_args(&vec![]);
    assert!(!o.help && !o.c64 && !o.check_only && o.story_path.is_none());
}

#[test]
fn colorize_twice_is_colorize_once() {
    for t in ["{c}a{0}", "{{c}y}", "x{w}y{m}z", "plain", "{0{0}}"] {
        let once = colorize(t);
        assert_eq!(colorize(&once), once);
        for tag in ["{c}", "{y}", "{g}", "{r}", "{m}", "{w}", "{0}"] {
            assert!(!once.contains(tag));
        }
    }
}

#[test]
fn colorize_in_pieces() {
    let a = "olá {c}mundo";
    let b = "{0} e {y}fim";
    assert_eq!(colorize(&format!("{a}{b}")), format!("{}{}", colorize(a), colorize(b)));
    assert_eq!(colorize("a{x}"), format!("{}{}", colorize("a{"), colorize("x}")));
    assert_eq!(colorize("{c{0}"), format!("{}{}", colorize("{c"), colorize("{0}")));
    // a tag that runs across the boundary is only found in the whole
    assert_ne!(colorize("x{c}"), format!("{}{}", colorize("x{"), colorize("c}")));
}

#[test]
fn story_in_two_parts() {
    let s1 = "=== inicio\n@choices\nir -> fim\n";
    let s2 = "=== fim\n@ending good\n";
    let whole = parse_story(&format!("{s1}{s2}"));
    let a = parse_story(s1);
    let b = parse_story(s2);
    assert_eq!(whole.len(), a.len() + b.len());
    assert_eq!(whole.get(&s("inicio")).unwrap().choices, a.get(&s("inicio")).unwrap().choices);
    assert_eq!(whole.get(&s("fim")).unwrap().ending, b.get(&s("fim")).unwrap().ending);
    assert_eq!(whole.id_at(0), a.id_at(0));
    assert_eq!(whole.id_at(1), b.id_at(0));
}

#[test]
fn errors_ignore_scene_order_and_decoration() {
    let one = parse_story("=== a\n=== inicio\n@choices\nx -> nada\n");
    let two = parse_story("=== inicio\n@text\noutro texto\n@choices\noutro rótulo -> nada\n=== a\n");
    let mut e1 = validate(&one);
    let mut e2 = validate(&two);
    e1.sort();
    e2.sort();
    assert_eq!(e1, e2);
}
