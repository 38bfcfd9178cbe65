# deriva

A terminal visual novel engine. Stories are plain text files; the engine
parses them into scenes, checks that they hold together, and plays them in
the terminal (typewriter text, colored ASCII art with optional truecolor
gradients, mouse or number keys to choose).

## Story format

```
=== scene_id
@art #RRGGBB #RRGGBB
  (optional ASCII art; the two colors give a vertical gradient)
@text
Narrative text.
@choices
Choice label -> target_scene_id
Another choice -> other_id
```

The start scene is named `inicio`. A scene ends the story with
`@ending good` or `@ending bad` in place of `@choices`. Inline color tags
work in art and text: `{c}` cyan, `{y}` yellow, `{g}` green, `{r}` red,
`{m}` magenta, `{w}` white, `{0}` default.

## Layout

- `src/` — the verified library (Verus):
  - `text.rs`: whitespace, trimming, lines and words of character sequences;
  - `color.rs`: `#RRGGBB` colors and the inline color tags;
  - `story.rs`: scenes, stories and the story parser;
  - `check.rs`: the structural checks of a story;
  - `play.rs`: menus, moves between scenes, input decisions, typewriter pacing;
  - `screen.rs`: the Commodore 64 frame and menu lines;
  - `cli.rs`: command-line options.
- `app/` — the terminal program: reading files, drawing, reading keys and
  mouse clicks.
- `tests/` — tests of the library.

## Running

```
deriva                       # built-in story
deriva my-story.txt          # play a story file
deriva --check my-story.txt  # only validate it
deriva --c64                 # Commodore 64 look
```
