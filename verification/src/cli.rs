//! Argument parsing: the subcommands `present`, `preview` and `build` mapped
//! to a [`Command`], touching neither the terminal nor any file.
use vstd::prelude::*;

verus! {

/// The requested output path (`--mode`).
#[derive(Debug, Clone, Copy, PartialEq, Eq, Structural)]
pub enum Mode {
    /// The default: the image path.
    Auto,
    /// The image protocol path, forced.
    Image,
    /// The ANSI cell path, forced.
    Cell,
}

impl Default for Mode {
    fn default() -> (m: Mode)
        ensures
            m == Mode::Auto,
    {
        Mode::Auto
    }
}

/// The mode named `s` (`auto`, `image` or `cell`, lower case).
pub open spec fn mode_named(s: Seq<char>) -> Option<Mode> {
    if s == "auto"@ {
        Some(Mode::Auto)
    } else if s == "image"@ {
        Some(Mode::Image)
    } else if s == "cell"@ {
        Some(Mode::Cell)
    } else {
        None
    }
}

/// Whether two strings hold the same characters.
pub fn str_eq(a: &str, b: &str) -> (r: bool)
    ensures
        r == (a@ == b@),
{
    let n = a.unicode_len();
    if n != b.unicode_len() {
        return false;
    }
    let mut i: usize = 0;
    while i < n
        invariant
            n == a@.len(),
            n == b@.len(),
            i <= n,
            forall|k: int| 0 <= k < i ==> a@[k] == b@[k],
        decreases n - i,
    {
        if a.get_char(i) != b.get_char(i) {
            return false;
        }
        i = i + 1;
    }
    proof {
        assert(a@ =~= b@);
    }
    true
}

impl Mode {
    /// `auto`, `image` or `cell`; anything else is `None`.
    pub fn parse(s: &str) -> (m: Option<Mode>)
        ensures
            m == mode_named(s@),
    {
        if str_eq(s, "auto") {
            Some(Mode::Auto)
        } else if str_eq(s, "image") {
            Some(Mode::Image)
        } else if str_eq(s, "cell") {
            Some(Mode::Cell)
        } else {
            None
        }
    }
}

/// A parsed subcommand.
#[derive(Debug, Clone, PartialEq, Eq)]
pub enum Command {
    /// Interactive presentation from the keyboard.
    Present {
        /// The entry `.typ` file.
        root: String,
        /// Requested output path.
        mode: Mode,
        /// Whether the cell path enlarges headings (off with `--no-cell-spans`).
        cell_spans: bool,
    },
    /// Preview driven by keys and, with `--control`, by a control socket.
    Preview {
        /// The entry `.typ` file.
        root: String,
        /// The control socket path, if any.
        control: Option<String>,
        /// Requested output path.
        mode: Mode,
        /// Whether the cell path enlarges headings (off with `--no-cell-spans`).
        cell_spans: bool,
    },
    /// PDF export, without interaction.
    Build {
        /// The entry `.typ` file.
        root: String,
        /// The output PDF path.
        out: String,
    },
}

/// A parsed subcommand, with its strings as character sequences.
pub enum CommandView {
    /// See [`Command::Present`].
    Present { root: Seq<char>, mode: Mode, cell_spans: bool },
    /// See [`Command::Preview`].
    Preview { root: Seq<char>, control: Option<Seq<char>>, mode: Mode, cell_spans: bool },
    /// See [`Command::Build`].
    Build { root: Seq<char>, out: Seq<char> },
}

impl View for Command {
    type V = CommandView;

    open spec fn view(&self) -> CommandView {
        match self {
            Command::Present { root, mode, cell_spans } => CommandView::Present {
                root: root@,
                mode: *mode,
                cell_spans: *cell_spans,
            },
            Command::Preview { root, control, mode, cell_spans } => CommandView::Preview {
                root: root@,
                control: match control {
                    Some(c) => Some(c@),
                    None => None,
                },
                mode: *mode,
                cell_spans: *cell_spans,
            },
            Command::Build { root, out } => CommandView::Build { root: root@, out: out@ },
        }
    }
}

/// The usage text.
pub const USAGE: &'static str = "paladocs \u{2014} Typst presenter

USAGE:
    paladocs present <ROOT.typ> [--mode auto|image|cell] [--no-cell-spans]
    paladocs preview <ROOT.typ> [--control <SOCKET>] [--mode auto|image|cell] [--no-cell-spans]
    paladocs build   <ROOT.typ> -o <OUT.pdf>";

/// The subcommand being parsed.
#[derive(Clone, Copy, PartialEq, Eq, Structural)]
pub enum Sub {
    /// `present`.
    Present,
    /// `preview`.
    Preview,
    /// `build`.
    Build,
}

/// What the options scanned so far have set.
pub struct Scan {
    /// The positional `ROOT.typ`.
    pub root: Option<Seq<char>>,
    /// `--control <SOCKET>` (preview), the last one given.
    pub control: Option<Seq<char>>,
    /// `--mode <value>` (present, preview), at most once.
    pub mode: Option<Mode>,
    /// Cleared by `--no-cell-spans` (present, preview).
    pub cell_spans: bool,
    /// `-o` / `--output <OUT.pdf>` (build), the last one given.
    pub out: Option<Seq<char>>,
}

/// The result of `--mode` given `slot` (the mode already set) and `value`
/// (the next argument, if any).
pub open spec fn mode_option(slot: Option<Mode>, value: Option<Seq<char>>) -> Result<Mode, Seq<char>> {
    if slot is Some {
        Err("--mode specified more than once"@)
    } else {
        match value {
            None => Err("--mode requires a value (auto|image|cell)"@),
            Some(v) => match mode_named(v) {
                None => Err("unknown --mode value: "@ + v),
                Some(m) => Ok(m),
            },
        }
    }
}

/// The argument after position `i`, if any.
pub open spec fn next_arg(a: Seq<Seq<char>>, i: int) -> Option<Seq<char>> {
    if i + 1 < a.len() {
        Some(a[i + 1])
    } else {
        None
    }
}

/// Scanning the options of subcommand `sub` from position `i` of `a`, with
/// `st` set so far: flags are matched first, any other argument starting
/// with `-` is an unknown flag, the first other argument is `ROOT.typ` and a
/// second one is an error.
pub open spec fn scan_args(sub: Sub, a: Seq<Seq<char>>, i: int, st: Scan) -> Result<Scan, Seq<char>>
    decreases a.len() - i,
{
    if i < 0 || i >= a.len() {
        Ok(st)
    } else {
        let arg = a[i];
        if sub != Sub::Build && arg == "--mode"@ {
            match mode_option(st.mode, next_arg(a, i)) {
                Err(e) => Err(e),
                Ok(m) => scan_args(sub, a, i + 2, Scan { mode: Some(m), ..st }),
            }
        } else if sub != Sub::Build && arg == "--no-cell-spans"@ {
            scan_args(sub, a, i + 1, Scan { cell_spans: false, ..st })
        } else if sub == Sub::Preview && arg == "--control"@ {
            match next_arg(a, i) {
                None => Err("missing argument: SOCKET"@),
                Some(v) => scan_args(sub, a, i + 2, Scan { control: Some(v), ..st }),
            }
        } else if sub == Sub::Build && (arg == "-o"@ || arg == "--output"@) {
            match next_arg(a, i) {
                None => Err("missing argument: OUT.pdf"@),
                Some(v) => scan_args(sub, a, i + 2, Scan { out: Some(v), ..st }),
            }
        } else if arg.len() > 0 && arg[0] == '-' {
            Err("unknown flag: "@ + arg)
        } else if st.root is Some {
            Err("unexpected extra argument: "@ + arg + " (already have ROOT.typ)"@)
        } else {
            scan_args(sub, a, i + 1, Scan { root: Some(arg), ..st })
        }
    }
}

/// Nothing set yet; cell spans on.
pub open spec fn scan_start() -> Scan {
    Scan { root: None, control: None, mode: None, cell_spans: true, out: None }
}

/// The command of subcommand `sub` once its options are scanned.
pub open spec fn finish(sub: Sub, st: Scan) -> Result<CommandView, Seq<char>> {
    let mode = match st.mode {
        Some(m) => m,
        None => Mode::Auto,
    };
    match sub {
        Sub::Present => match st.root {
            None => Err("present: missing ROOT.typ"@),
            Some(root) => Ok(CommandView::Present { root, mode, cell_spans: st.cell_spans }),
        },
        Sub::Preview => match st.root {
            None => Err("preview: missing ROOT.typ"@),
            Some(root) => Ok(
                CommandView::Preview { root, control: st.control, mode, cell_spans: st.cell_spans },
            ),
        },
        Sub::Build => match st.root {
            None => Err("build: missing ROOT.typ"@),
            Some(root) => match st.out {
                None => Err("build: missing -o <OUT.pdf>"@),
                Some(out) => Ok(CommandView::Build { root, out }),
            },
        },
    }
}

/// What `parse_args` answers for the arguments `a` (without the program
/// name): the command, or the message of the first problem met.
pub open spec fn parsed(a: Seq<Seq<char>>) -> Result<CommandView, Seq<char>> {
    if a.len() == 0 {
        Err("missing subcommand"@)
    } else {
        let sub = a[0];
        let kind = if sub == "present"@ {
            Some(Sub::Present)
        } else if sub == "preview"@ {
            Some(Sub::Preview)
        } else if sub == "build"@ {
            Some(Sub::Build)
        } else {
            None
        };
        match kind {
            Some(k) => match scan_args(k, a, 1, scan_start()) {
                Err(e) => Err(e),
                Ok(st) => finish(k, st),
            },
            None => if sub == "-h"@ || sub == "--help"@ || sub == "help"@ {
                Err(USAGE@)
            } else {
                Err("unknown subcommand: "@ + sub)
            },
        }
    }
}

/// Scanning depends only on the arguments from the scanning position on.
pub proof fn lemma_scan_suffix(sub: Sub, a: Seq<Seq<char>>, b: Seq<Seq<char>>, i: int, st: Scan)
    requires
        a.len() == b.len(),
        forall|k: int| i <= k < a.len() ==> a[k] == b[k],
    ensures
        scan_args(sub, a, i, st) == scan_args(sub, b, i, st),
    decreases a.len() - i,
{
    if 0 <= i < a.len() {
        let arg = a[i];
        assert(b[i] == arg);
        assert(next_arg(a, i) == next_arg(b, i));
        lemma_scan_suffix(sub, a, b, i + 1, Scan { cell_spans: false, ..st });
        lemma_scan_suffix(sub, a, b, i + 1, Scan { root: Some(arg), ..st });
        if i + 1 < a.len() {
            let v = a[i + 1];
            lemma_scan_suffix(sub, a, b, i + 2, Scan { control: Some(v), ..st });
            lemma_scan_suffix(sub, a, b, i + 2, Scan { out: Some(v), ..st });
            if let Ok(m) = mode_option(st.mode, next_arg(a, i)) {
                lemma_scan_suffix(sub, a, b, i + 2, Scan { mode: Some(m), ..st });
            }
        }
    }
}

/// `--output` is another spelling of `-o` for `build`: wherever the scan
/// meets `--output` as a flag, writing `-o` there instead gives the same
/// outcome (the next argument is taken as `OUT.pdf` and scanning resumes
/// after it).
pub proof fn lemma_output_flag_alias(a: Seq<Seq<char>>, i: int, st: Scan)
    requires
        0 <= i < a.len(),
        a[i] == "--output"@,
    ensures
        scan_args(Sub::Build, a, i, st) == scan_args(Sub::Build, a.update(i, "-o"@), i, st),
        scan_args(Sub::Build, a, i, st) == match next_arg(a, i) {
            None => Err("missing argument: OUT.pdf"@),
            Some(v) => scan_args(Sub::Build, a, i + 2, Scan { out: Some(v), ..st }),
        },
{
    let b = a.update(i, "-o"@);
    assert(b[i] == "-o"@);
    assert(next_arg(a, i) == next_arg(b, i));
    if i + 1 < a.len() {
        lemma_scan_suffix(Sub::Build, a, b, i + 2, Scan { out: Some(a[i + 1]), ..st });
    }
}

/// `build ROOT --output OUT`, `build ROOT -o OUT` and `build --output OUT
/// ROOT` all give the build command of `ROOT` into `OUT`, for any `OUT` and
/// any `ROOT` that does not start with `-`.
pub proof fn lemma_build_output_parsed(root: Seq<char>, out: Seq<char>)
    requires
        !(root.len() > 0 && root[0] == '-'),
    ensures
        parsed(seq!["build"@, root, "--output"@, out]) == Ok::<CommandView, Seq<char>>(
            CommandView::Build { root, out },
        ),
        parsed(seq!["build"@, root, "-o"@, out]) == Ok::<CommandView, Seq<char>>(
            CommandView::Build { root, out },
        ),
        parsed(seq!["build"@, "--output"@, out, root]) == Ok::<CommandView, Seq<char>>(
            CommandView::Build { root, out },
        ),
{
    reveal_strlit("build");
    reveal_strlit("present");
    reveal_strlit("preview");
    reveal_strlit("-o");
    reveal_strlit("--output");
    assert("build"@ != "present"@ && "build"@ != "preview"@) by {
        assert("build"@[0] != "present"@[0]);
        assert("build"@[0] != "preview"@[0]);
    }
    assert(root != "-o"@ && root != "--output"@) by {
        if root.len() > 0 {
            assert("-o"@[0] == '-');
            assert("--output"@[0] == '-');
        }
    }
    let s0 = scan_start();
    let a1 = seq!["build"@, root, "--output"@, out];
    let s1 = Scan { root: Some(root), ..s0 };
    assert(a1[1] == root && a1[2] == "--output"@ && a1[3] == out);
    assert(scan_args(Sub::Build, a1, 4, Scan { out: Some(out), ..s1 }) == Ok::<Scan, Seq<char>>(
        Scan { out: Some(out), ..s1 },
    ));
    assert(scan_args(Sub::Build, a1, 2, s1) == scan_args(Sub::Build, a1, 4, Scan { out: Some(out), ..s1 }));
    assert(scan_args(Sub::Build, a1, 1, s0) == scan_args(Sub::Build, a1, 2, s1));
    let a2 = seq!["build"@, root, "-o"@, out];
    assert(a2[1] == root && a2[2] == "-o"@ && a2[3] == out);
    assert(scan_args(Sub::Build, a2, 4, Scan { out: Some(out), ..s1 }) == Ok::<Scan, Seq<char>>(
        Scan { out: Some(out), ..s1 },
    ));
    assert(scan_args(Sub::Build, a2, 2, s1) == scan_args(Sub::Build, a2, 4, Scan { out: Some(out), ..s1 }));
    assert(scan_args(Sub::Build, a2, 1, s0) == scan_args(Sub::Build, a2, 2, s1));
    let a3 = seq!["build"@, "--output"@, out, root];
    let s3 = Scan { out: Some(out), ..s0 };
    assert(a3[1] == "--output"@ && a3[2] == out && a3[3] == root);
    assert(scan_args(Sub::Build, a3, 4, Scan { root: Some(root), ..s3 }) == Ok::<Scan, Seq<char>>(
        Scan { root: Some(root), ..s3 },
    ));
    assert(scan_args(Sub::Build, a3, 3, s3) == scan_args(Sub::Build, a3, 4, Scan { root: Some(root), ..s3 }));
    assert(scan_args(Sub::Build, a3, 1, s0) == scan_args(Sub::Build, a3, 3, s3));
}

/// The character views of the arguments.
pub open spec fn arg_views(args: Seq<String>) -> Seq<Seq<char>> {
    args.map_values(|s: String| s@)
}

fn message(text: &str) -> (s: String)
    ensures
        s@ == text@,
{
    String::from_str(text)
}

fn message_with(head: &str, arg: &str) -> (s: String)
    ensures
        s@ == head@ + arg@,
{
    let mut s = String::from_str(head);
    s.append(arg);
    s
}

/// Exec state of the scan, mirroring [`Scan`].
struct ScanExec {
    root: Option<String>,
    control: Option<String>,
    mode: Option<Mode>,
    cell_spans: bool,
    out: Option<String>,
}

impl ScanExec {
    spec fn view(&self) -> Scan {
        Scan {
            root: match self.root {
                Some(r) => Some(r@),
                None => None,
            },
            control: match self.control {
                Some(c) => Some(c@),
                None => None,
            },
            mode: self.mode,
            cell_spans: self.cell_spans,
            out: match self.out {
                Some(o) => Some(o@),
                None => None,
            },
        }
    }
}

fn starts_with_dash(s: &str) -> (r: bool)
    ensures
        r == (s@.len() > 0 && s@[0] == '-'),
{
    s.unicode_len() > 0 && s.get_char(0) == '-'
}

fn scan(sub: Sub, args: &[String]) -> (r: Result<ScanExec, String>)
    requires
        args@.len() >= 1,
    ensures
        match r {
            Ok(st) => scan_args(sub, arg_views(args@), 1, scan_start()) == Ok::<Scan, Seq<char>>(
                st.view(),
            ),
            Err(e) => scan_args(sub, arg_views(args@), 1, scan_start()) == Err::<Scan, Seq<char>>(
                e@,
            ),
        },
{
    let ghost a = arg_views(args@);
    let mut st = ScanExec { root: None, control: None, mode: None, cell_spans: true, out: None };
    let mut i: usize = 1;
    let n = args.len();
    while i < n
        invariant
            n == args@.len(),
            a == arg_views(args@),
            1 <= i,
            scan_args(sub, a, 1, scan_start()) == scan_args(sub, a, i as int, st.view()),
        decreases n - i,
    {
        let arg = args[i].as_str();
        proof {
            assert(arg@ == a[i as int]);
        }
        let next: Option<&String> = if i + 1 < n {
            Some(&args[i + 1])
        } else {
            None
        };
        proof {
            if i + 1 < n {
                assert(next.unwrap()@ == a[i + 1]);
            }
        }
        if sub != Sub::Build && str_eq(arg, "--mode") {
            if st.mode.is_some() {
                return Err(message("--mode specified more than once"));
            }
            let v = match next {
                None => {
                    return Err(message("--mode requires a value (auto|image|cell)"));
                },
                Some(v) => v,
            };
            let m = match Mode::parse(v.as_str()) {
                None => {
                    return Err(message_with("unknown --mode value: ", v.as_str()));
                },
                Some(m) => m,
            };
            st.mode = Some(m);
            i = i + 2;
        } else if sub != Sub::Build && str_eq(arg, "--no-cell-spans") {
            st.cell_spans = false;
            i = i + 1;
        } else if sub == Sub::Preview && str_eq(arg, "--control") {
            let v = match next {
                None => {
                    return Err(message("missing argument: SOCKET"));
                },
                Some(v) => v,
            };
            st.control = Some(v.clone());
            i = i + 2;
        } else if sub == Sub::Build && (str_eq(arg, "-o") || str_eq(arg, "--output")) {
            let v = match next {
                None => {
                    return Err(message("missing argument: OUT.pdf"));
                },
                Some(v) => v,
            };
            st.out = Some(v.clone());
            i = i + 2;
        } else if starts_with_dash(arg) {
            return Err(message_with("unknown flag: ", arg));
        } else if st.root.is_some() {
            let mut e = message_with("unexpected extra argument: ", arg);
            e.append(" (already have ROOT.typ)");
            return Err(e);
        } else {
            st.root = Some(args[i].clone());
            i = i + 1;
        }
    }
    proof {
        assert(scan_args(sub, a, i as int, st.view()) == Ok::<Scan, Seq<char>>(st.view()));
    }
    Ok(st)
}

fn finish_exec(sub: Sub, st: ScanExec) -> (r: Result<Command, String>)
    ensures
        match r {
            Ok(c) => finish(sub, st.view()) == Ok::<CommandView, Seq<char>>(c@),
            Err(e) => finish(sub, st.view()) == Err::<CommandView, Seq<char>>(e@),
        },
{
    let mode = match st.mode {
        Some(m) => m,
        None => Mode::Auto,
    };
    let root = match st.root {
        None => {
            return Err(
                match sub {
                    Sub::Present => message("present: missing ROOT.typ"),
                    Sub::Preview => message("preview: missing ROOT.typ"),
                    Sub::Build => message("build: missing ROOT.typ"),
                },
            );
        },
        Some(r) => r,
    };
    match sub {
        Sub::Present => Ok(Command::Present { root, mode, cell_spans: st.cell_spans }),
        Sub::Preview => Ok(Command::Preview { root, control: st.control, mode, cell_spans: st.cell_spans }),
        Sub::Build => match st.out {
            None => Err(message("build: missing -o <OUT.pdf>")),
            Some(out) => Ok(Command::Build { root, out }),
        },
    }
}

/// Parses the arguments (without the program name) into a [`Command`]; a
/// bad or missing argument gives its message. `--control` and `-o` take
/// their value from the next argument. See [`parsed`].
pub fn parse_args(args: &[String]) -> (r: Result<Command, String>)
    ensures
        match r {
            Ok(c) => parsed(arg_views(args@)) == Ok::<CommandView, Seq<char>>(c@),
            Err(e) => parsed(arg_views(args@)) == Err::<CommandView, Seq<char>>(e@),
        },
{
    if args.len() == 0 {
        return Err(message("missing subcommand"));
    }
    let sub = args[0].as_str();
    proof {
        assert(sub@ == arg_views(args@)[0]);
    }
    let kind = if str_eq(sub, "present") {
        Sub::Present
    } else if str_eq(sub, "preview") {
        Sub::Preview
    } else if str_eq(sub, "build") {
        Sub::Build
    } else if str_eq(sub, "-h") || str_eq(sub, "--help") || str_eq(sub, "help") {
        return Err(message(USAGE));
    } else {
        return Err(message_with("unknown subcommand: ", sub));
    };
    match scan(kind, args) {
        Err(e) => Err(e),
        Ok(st) => finish_exec(kind, st),
    }
}

} // verus!
