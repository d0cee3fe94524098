//! Command-line parsing, hand-rolled: one positional and four flags don't justify a dependency on
//! an embedded target.

use vstd::prelude::*;

use crate::error::UsageError;
use crate::text;

verus! {

/// What the command line asked for. A path is given as its position among the arguments, so that
/// one that is not valid Unicode stays reachable.
#[derive(Clone, Copy, PartialEq, Eq, Structural, Debug)]
pub enum Invocation {
    Run { path: Option<usize>, join_groups: bool },
    CheckConfig(Option<usize>),
    Help,
    Version,
}

/// What is wrong with the command line: a second positional, or an option that is not known, at
/// this position.
#[derive(Clone, Copy, PartialEq, Eq, Structural, Debug)]
pub enum Misuse {
    TooManyArgs(usize),
    UnknownOption(usize),
}

/// What the arguments in front have set.
#[derive(Clone, Copy, PartialEq, Eq, Structural, Debug)]
pub struct Parsed {
    pub check: bool,
    pub join_groups: bool,
    pub path: Option<usize>,
    pub options_done: bool,
}

/// Nothing set.
pub open spec fn start() -> Parsed {
    Parsed { check: false, join_groups: true, path: None, options_done: false }
}

/// What one argument does.
pub enum Step {
    Go(Parsed),
    Stop(Result<Invocation, Misuse>),
}

/// An argument that reads as an option. A lone `-` is a path (stdin by convention).
pub open spec fn looks_like_option(arg: Seq<char>) -> bool {
    arg.len() > 1 && arg[0] == '-'
}

/// What the argument at `i` does behind what those in front of it have set.
pub open spec fn step(p: Parsed, arg: Seq<char>, i: usize) -> Step {
    if !p.options_done && arg == "--"@ {
        Step::Go(Parsed { options_done: true, ..p })
    } else if !p.options_done && (arg == "-h"@ || arg == "--help"@) {
        Step::Stop(Ok(Invocation::Help))
    } else if !p.options_done && (arg == "-V"@ || arg == "--version"@) {
        Step::Stop(Ok(Invocation::Version))
    } else if !p.options_done && arg == "--check-config"@ {
        Step::Go(Parsed { check: true, ..p })
    } else if !p.options_done && arg == "--no-join"@ {
        Step::Go(Parsed { join_groups: false, ..p })
    } else if !p.options_done && looks_like_option(arg) {
        Step::Stop(Err(Misuse::UnknownOption(i)))
    } else if p.path is Some {
        Step::Stop(Err(Misuse::TooManyArgs(i)))
    } else {
        Step::Go(Parsed { path: Some(i), ..p })
    }
}

/// What the arguments from `i` on ask for, behind what those in front have set.
pub open spec fn parsed_from(p: Parsed, args: Seq<Seq<char>>, i: int) -> Result<Invocation, Misuse>
    decreases args.len() - i,
{
    if i >= args.len() {
        Ok(
            if p.check {
                Invocation::CheckConfig(p.path)
            } else {
                Invocation::Run { path: p.path, join_groups: p.join_groups }
            },
        )
    } else {
        match step(p, args[i], i as usize) {
            Step::Stop(r) => r,
            Step::Go(q) => parsed_from(q, args, i + 1),
        }
    }
}

/// What the arguments ask for.
pub open spec fn invocation(args: Seq<Seq<char>>) -> Result<Invocation, Misuse> {
    parsed_from(start(), args, 0)
}

/// `--help` and `--version` win over anything after them.
pub proof fn law_help_and_version_win(args: Seq<Seq<char>>, n: int)
    requires
        0 <= n <= args.len(),
        invocation(args.take(n)) == Ok::<_, Misuse>(Invocation::Help) || invocation(args.take(n))
            == Ok::<_, Misuse>(Invocation::Version),
    ensures
        invocation(args) == invocation(args.take(n)),
{
    lemma_stops_early(start(), args, 0, n);
}

/// An argument that is refused is refused whatever follows it.
pub proof fn law_misuse_is_found_at_once(args: Seq<Seq<char>>, n: int)
    requires
        0 <= n <= args.len(),
        invocation(args.take(n)) is Err,
    ensures
        invocation(args) == invocation(args.take(n)),
{
    lemma_stops_early(start(), args, 0, n);
}

proof fn lemma_stops_early(p: Parsed, args: Seq<Seq<char>>, i: int, n: int)
    requires
        0 <= i <= n <= args.len(),
        ({
            let r = parsed_from(p, args.take(n), i);
            r is Err || r == Ok::<_, Misuse>(Invocation::Help) || r == Ok::<_, Misuse>(
                Invocation::Version,
            )
        }),
    ensures
        parsed_from(p, args, i) == parsed_from(p, args.take(n), i),
    decreases n - i,
{
    if i < n {
        assert(args.take(n)[i] == args[i]);
        match step(p, args[i], i as usize) {
            Step::Stop(_) => {},
            Step::Go(q) => lemma_stops_early(q, args, i + 1, n),
        }
    }
}

/// Parse `args` (the program's name already stripped). `--help` and `--version` win over anything
/// after them; an unknown option before them still errors. A second positional is refused rather
/// than ignored, since a second path is far more likely a typo than an intent. `--` ends option
/// parsing, so a config path that starts with a dash stays reachable.
pub fn parse(args: &Vec<String>) -> (r: Result<Invocation, UsageError>)
    ensures
        match r {
            Ok(asked) => invocation(text::views(args@)) == Ok::<_, Misuse>(asked),
            Err(UsageError::TooManyArgs(arg)) => {
                &&& invocation(text::views(args@)) matches Err(Misuse::TooManyArgs(i))
                &&& i < args@.len()
                &&& arg@ == args@[i as int]@
            },
            Err(UsageError::UnknownOption(arg)) => {
                &&& invocation(text::views(args@)) matches Err(Misuse::UnknownOption(i))
                &&& i < args@.len()
                &&& arg@ == args@[i as int]@
            },
        },
{
    let ghost all = text::views(args@);
    let mut p = Parsed { check: false, join_groups: true, path: None, options_done: false };
    let mut i: usize = 0;
    while i < args.len()
        invariant
            i <= args@.len(),
            all == text::views(args@),
            invocation(all) == parsed_from(p, all, i as int),
        decreases args@.len() - i,
    {
        let arg = text::chars(args[i].as_str());
        assert(all[i as int] == arg@);
        if !p.options_done && text::is(&arg, "--") {
            p = Parsed { options_done: true, ..p };
        } else if !p.options_done && (text::is(&arg, "-h") || text::is(&arg, "--help")) {
            return Ok(Invocation::Help);
        } else if !p.options_done && (text::is(&arg, "-V") || text::is(&arg, "--version")) {
            return Ok(Invocation::Version);
        } else if !p.options_done && text::is(&arg, "--check-config") {
            p = Parsed { check: true, ..p };
        } else if !p.options_done && text::is(&arg, "--no-join") {
            p = Parsed { join_groups: false, ..p };
        } else if !p.options_done && arg.len() > 1 && arg[0] == '-' {
            return Err(UsageError::UnknownOption(args[i].clone()));
        } else if p.path.is_some() {
            return Err(UsageError::TooManyArgs(args[i].clone()));
        } else {
            p = Parsed { path: Some(i), ..p };
        }
        i += 1;
    }
    Ok(
        if p.check {
            Invocation::CheckConfig(p.path)
        } else {
            Invocation::Run { path: p.path, join_groups: p.join_groups }
        },
    )
}

/// The usage text behind the name and version; ends with a newline.
pub const USAGE: &'static str = "

Reflects link-local service traffic (Wake-on-LAN, mDNS, SSDP, WS-Discovery, DIAL) between
two network interfaces.

usage: netflector [--check-config] [--no-join] [--] [CONFIG]

  CONFIG           TOML config file. NETFLECTOR_* environment variables are merged on top of
                   it. Omit it to configure from the environment alone. Put `--` first if the
                   file name begins with a dash.

  --check-config   Load and validate the configuration, then exit. It parses only: no
                   interface is opened, so it needs no privileges and it cannot tell you that
                   an interface is missing or unreachable.
  --no-join        Do not join multicast groups. Group traffic then reaches netflector only
                   where the link delivers it without a membership, as an emulated or
                   promiscuous fabric does.
  -V, --version    Print the version and exit.
  -h, --help       Print this help and exit.
";

/// The help for a version: name, version and usage.
pub fn help(version: &str) -> (r: String)
    ensures
        r@ == "netflector "@ + version@ + USAGE@,
{
    let mut r = "netflector ".to_owned();
    r.append(version);
    r.append(USAGE);
    r
}

/// An option that sets something, or a path.
pub open spec fn is_plain(arg: Seq<char>) -> bool {
    arg == "--check-config"@ || arg == "--no-join"@ || !(arg.len() > 1 && arg[0] == '-')
}

/// Options count wherever they stand around the path, and the path is the one argument that is none.
pub proof fn law_options_count_wherever_they_stand(args: Seq<Seq<char>>, path: Option<usize>)
    requires
        args.len() <= usize::MAX,
        forall|i: int| 0 <= i < args.len() ==> is_plain(#[trigger] args[i]),
        forall|i: int|
            0 <= i < args.len() ==> (path == Some(i as usize) <==> !((#[trigger] args[i]).len() > 1
                && args[i][0] == '-')),
        path matches Some(k) ==> k < args.len(),
    ensures
        args.contains("--check-config"@) ==> invocation(args) == Ok::<_, Misuse>(
            Invocation::CheckConfig(path),
        ),
        !args.contains("--check-config"@) ==> invocation(args) == Ok::<_, Misuse>(
            Invocation::Run { path, join_groups: !args.contains("--no-join"@) },
        ),
{
    lemma_plain(start(), args, 0, path);
}

proof fn lemma_plain(p: Parsed, args: Seq<Seq<char>>, i: int, path: Option<usize>)
    requires
        0 <= i <= args.len() <= usize::MAX,
        forall|j: int| 0 <= j < args.len() ==> is_plain(#[trigger] args[j]),
        forall|j: int|
            0 <= j < args.len() ==> (path == Some(j as usize) <==> !((#[trigger] args[j]).len() > 1
                && args[j][0] == '-')),
        path matches Some(k) ==> k < args.len(),
        !p.options_done,
        p.path == (if path is Some && path->0 < i {
            path
        } else {
            None
        }),
        p.check <==> exists|j: int| 0 <= j < i && #[trigger] args[j] == "--check-config"@,
        p.join_groups <==> !exists|j: int| 0 <= j < i && #[trigger] args[j] == "--no-join"@,
    ensures
        parsed_from(p, args, i) == Ok::<_, Misuse>(
            if args.contains("--check-config"@) {
                Invocation::CheckConfig(path)
            } else {
                Invocation::Run { path, join_groups: !args.contains("--no-join"@) }
            },
        ),
    decreases args.len() - i,
{
    reveal_strlit("--");
    reveal_strlit("-h");
    reveal_strlit("--help");
    reveal_strlit("-V");
    reveal_strlit("--version");
    reveal_strlit("--check-config");
    reveal_strlit("--no-join");
    if i < args.len() {
        let arg = args[i];
        assert(is_plain(arg));
        assert("--check-config"@.len() == 14 && "--no-join"@.len() == 9 && "--help"@.len() == 6
            && "--version"@.len() == 9 && "--"@.len() == 2 && "-h"@.len() == 2 && "-V"@.len() == 2);
        assert("--no-join"@[2] == 'n' && "--version"@[2] == 'v');
        assert("--"@[0] == '-' && "-h"@[0] == '-' && "--help"@[0] == '-' && "-V"@[0] == '-'
            && "--version"@[0] == '-');
        match step(p, arg, i as usize) {
            Step::Go(q) => {
                lemma_plain(q, args, i + 1, path);
            },
            Step::Stop(_) => {
                assert(false);
            },
        }
    } else {
        if args.contains("--check-config"@) {
            let j: int = choose|j: int| 0 <= j < args.len() && args[j] == "--check-config"@;
            assert(args[j] == "--check-config"@);
        }
        if args.contains("--no-join"@) {
            let j: int = choose|j: int| 0 <= j < args.len() && args[j] == "--no-join"@;
            assert(args[j] == "--no-join"@);
        }
    }
}

/// Behind `--` an argument is a path, whatever it looks like, and a second one is refused.
pub proof fn law_behind_the_dashes_is_the_path(path: Seq<char>, more: Seq<char>)
    ensures
        invocation(seq!["--"@, path]) == Ok::<_, Misuse>(
            Invocation::Run { path: Some(1), join_groups: true },
        ),
        invocation(seq!["--"@, path, more]) == Err::<Invocation, _>(Misuse::TooManyArgs(2)),
{
    reveal_with_fuel(parsed_from, 4);
}

/// What asks for help or the version in front is answered with it, and another option is refused.
pub proof fn law_what_stands_in_front(arg: Seq<char>, more: Seq<Seq<char>>)
    ensures
        arg == "-h"@ || arg == "--help"@ ==> invocation(seq![arg] + more) == Ok::<_, Misuse>(
            Invocation::Help,
        ),
        arg == "-V"@ || arg == "--version"@ ==> invocation(seq![arg] + more) == Ok::<_, Misuse>(
            Invocation::Version,
        ),
        arg.len() > 1 && arg[0] == '-' && arg != "--"@ && arg != "-h"@ && arg != "--help"@ && arg
            != "-V"@ && arg != "--version"@ && arg != "--check-config"@ && arg != "--no-join"@
            ==> invocation(seq![arg] + more) == Err::<Invocation, _>(Misuse::UnknownOption(0)),
{
    reveal_strlit("--");
    reveal_strlit("-h");
    reveal_strlit("--help");
    reveal_strlit("-V");
    reveal_strlit("--version");
    let args = seq![arg] + more;
    assert(args[0] == arg);
    assert("--help"@.len() == 6 && "--version"@.len() == 9 && "--"@.len() == 2 && "-h"@.len() == 2
        && "-V"@.len() == 2);
    assert("--"@[1] == '-' && "-h"@[1] == 'h' && "-V"@[1] == 'V');
}

} // verus!
