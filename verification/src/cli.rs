//! Command-line options: `--c64` for the Commodore 64 look, `--check` to
//! only validate a story, `-h`/`--help`, and the path of a story file.
use vstd::prelude::*;
use crate::story::opt_view;
use crate::text::strings_view;

verus! {

/// The options given on the command line.
pub struct Options {
    /// Draw with the Commodore 64 look (blue screen and frame).
    pub c64: bool,
    /// Only validate the story, then leave.
    pub check_only: bool,
    /// Print the help and leave.
    pub help: bool,
    /// The story file to play, or `None` for the built-in story.
    pub story_path: Option<String>,
}

/// What the options hold, as plain values.
pub struct OptionsModel {
    pub c64: bool,
    pub check_only: bool,
    pub help: bool,
    pub story_path: Option<Seq<char>>,
}

impl View for Options {
    type V = OptionsModel;

    open spec fn view(&self) -> OptionsModel {
        OptionsModel {
            c64: self.c64,
            check_only: self.check_only,
            help: self.help,
            story_path: opt_view(self.story_path),
        }
    }
}

/// The options before any argument is read.
pub open spec fn no_options() -> OptionsModel {
    OptionsModel { c64: false, check_only: false, help: false, story_path: None }
}

/// The options after reading `args[i..]`, given `o` from the arguments
/// before: `--c64` and `--check` set their flag, `-h` or `--help` asks for
/// the help and ends the reading, and any other argument is the story path
/// (the last one counts).
pub open spec fn options_from(args: Seq<Seq<char>>, i: int, o: OptionsModel) -> OptionsModel
    decreases args.len() - i,
{
    if i < 0 || i >= args.len() {
        o
    } else {
        let a = args[i];
        if a == "--c64"@ {
            options_from(args, i + 1, OptionsModel { c64: true, ..o })
        } else if a == "--check"@ {
            options_from(args, i + 1, OptionsModel { check_only: true, ..o })
        } else if a == "-h"@ || a == "--help"@ {
            OptionsModel { help: true, ..o }
        } else {
            options_from(args, i + 1, OptionsModel { story_path: Some(a), ..o })
        }
    }
}

/// The options that the arguments `args` (without the program name) give.
pub fn parse_args(args: &Vec<String>) -> (o: Options)
    ensures
        o@ == options_from(strings_view(args@), 0, no_options()),
{
    let ghost av = strings_view(args@);
    let c64_flag = "--c64".to_owned();
    let check_flag = "--check".to_owned();
    let short_help = "-h".to_owned();
    let long_help = "--help".to_owned();
    let mut o = Options { c64: false, check_only: false, help: false, story_path: None };
    let n = args.len();
    for i in 0..n
        invariant
            n == args.len(),
            av == strings_view(args@),
            c64_flag@ == "--c64"@,
            check_flag@ == "--check"@,
            short_help@ == "-h"@,
            long_help@ == "--help"@,
            options_from(av, 0, no_options()) == options_from(av, i as int, o@),
    {
        let a = &args[i];
        assert(av[i as int] == a@);
        if *a == c64_flag {
            o.c64 = true;
        } else if *a == check_flag {
            o.check_only = true;
        } else if *a == short_help || *a == long_help {
            o.help = true;
            return o;
        } else {
            o.story_path = Some(a.clone());
        }
    }
    o
}

/// Whether the Commodore 64 look is on.
pub fn c64(o: &Options) -> (b: bool)
    ensures
        b == o.c64,
{
    o.c64
}

/// Whether `a` asks for the help (`-h` or `--help`).
pub open spec fn is_help(a: Seq<char>) -> bool {
    a == "-h"@ || a == "--help"@
}

/// Whether `a` is one of the options rather than a story path.
pub open spec fn is_option(a: Seq<char>) -> bool {
    a == "--c64"@ || a == "--check"@ || is_help(a)
}

proof fn lemma_option_words_differ()
    ensures
        "--c64"@ != "--check"@,
        !is_help("--c64"@),
        !is_help("--check"@),
{
    reveal_strlit("--c64");
    reveal_strlit("--check");
    reveal_strlit("-h");
    reveal_strlit("--help");
    assert("--c64"@.len() == 5);
    assert("--check"@.len() == 7);
    assert("-h"@.len() == 2);
    assert("--help"@.len() == 6);
    assert("--c64"@[3] != "--check"@[3]);
}

proof fn lemma_options_from(args: Seq<Seq<char>>, i: int, o: OptionsModel)
    requires
        0 <= i,
    ensures
        options_from(args, i, o).help <==> o.help || exists|k: int|
            i <= k < args.len() && is_help(#[trigger] args[k]),
        options_from(args, i, o).story_path matches Some(p) ==> o.story_path == Some(p)
            || exists|k: int| i <= k < args.len() && #[trigger] args[k] == p && !is_option(p),
        (forall|k: int| i <= k < args.len() ==> is_option(#[trigger] args[k])) ==> options_from(
            args,
            i,
            o,
        ).story_path == o.story_path,
        !(exists|k: int| i <= k < args.len() && is_help(#[trigger] args[k])) ==> {
            &&& options_from(args, i, o).c64 <==> o.c64 || exists|k: int|
                i <= k < args.len() && #[trigger] args[k] == "--c64"@
            &&& options_from(args, i, o).check_only <==> o.check_only || exists|k: int|
                i <= k < args.len() && #[trigger] args[k] == "--check"@
        },
    decreases args.len() - i,
{
    lemma_option_words_differ();
    if i < args.len() {
        let a = args[i];
        let next = if a == "--c64"@ {
            OptionsModel { c64: true, ..o }
        } else if a == "--check"@ {
            OptionsModel { check_only: true, ..o }
        } else {
            OptionsModel { story_path: Some(a), ..o }
        };
        if !is_help(a) {
            lemma_options_from(args, i + 1, next);
            assert(options_from(args, i, o) == options_from(args, i + 1, next));
            assert forall|k: int| i + 1 <= k < args.len() && is_help(#[trigger] args[k]) implies (
            i <= k < args.len() && is_help(args[k])) by {}
            if exists|k: int| i <= k < args.len() && is_help(#[trigger] args[k]) {
                let k = choose|k: int| i <= k < args.len() && is_help(#[trigger] args[k]);
                assert(k != i);
            }
            if exists|k: int| i <= k < args.len() && #[trigger] args[k] == "--c64"@ {
                let k = choose|k: int| i <= k < args.len() && #[trigger] args[k] == "--c64"@;
                if k != i {
                    assert(i + 1 <= k);
                }
            }
            if exists|k: int| i <= k < args.len() && #[trigger] args[k] == "--check"@ {
                let k = choose|k: int| i <= k < args.len() && #[trigger] args[k] == "--check"@;
                if k != i {
                    assert(i + 1 <= k);
                }
            }
            if forall|k: int| i <= k < args.len() ==> is_option(#[trigger] args[k]) {
                assert(is_option(args[i]));
            }
        } else {
            assert(is_help(args[i]));
        }
    }
}

/// Reading the command line: the help is asked for exactly when `-h` or
/// `--help` is among the arguments, and then neither is ever taken as the
/// story path; the story path, when there is one, is an argument that is
/// not an option; with only options there is none; and when no help is
/// asked for, `--c64` and `--check` set their flags exactly when given.
pub proof fn lemma_reading_the_command_line(args: Seq<Seq<char>>)
    ensures
        options_from(args, 0, no_options()).help <==> exists|k: int|
            0 <= k < args.len() && (#[trigger] args[k] == "-h"@ || args[k] == "--help"@),
        options_from(args, 0, no_options()).story_path matches Some(p) ==> exists|k: int|
            0 <= k < args.len() && #[trigger] args[k] == p && p != "--c64"@ && p != "--check"@
                && p != "-h"@ && p != "--help"@,
        (forall|k: int|
            0 <= k < args.len() ==> is_option(#[trigger] args[k])) ==> options_from(
            args,
            0,
            no_options(),
        ).story_path is None,
        !(exists|k: int| 0 <= k < args.len() && (#[trigger] args[k] == "-h"@ || args[k] == "--help"@)) ==> {
            &&& options_from(args, 0, no_options()).c64 <==> exists|k: int|
                0 <= k < args.len() && #[trigger] args[k] == "--c64"@
            &&& options_from(args, 0, no_options()).check_only <==> exists|k: int|
                0 <= k < args.len() && #[trigger] args[k] == "--check"@
        },
{
    lemma_options_from(args, 0, no_options());
}

} // verus!
