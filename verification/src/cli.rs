//! The command line: the options and subcommands the program takes.

use crate::text::{chars_of, string_of_range};
use vstd::prelude::*;

verus! {

/// The options and subcommand of one invocation.
#[derive(Clone, Debug)]
pub struct Cli {
    /// Print the version.
    pub version: bool,
    /// How many times output was asked to be quieter.
    pub quiet: u8,
    /// How many times output was asked to be more verbose.
    pub verbose: u8,
    /// Talk to the editor over standard input and output.
    pub stdio: bool,
    pub command: Option<Commands>,
}

/// A subcommand.
#[derive(Clone, Debug)]
pub enum Commands {
    /// Check availability.
    Check(Check),
    /// Remove artifacts from the target directory.
    Clean,
    /// Install or uninstall the toolchain.
    Toolchain(ToolchainArgs),
    /// Generate shell completions.
    Completions(Completions),
    /// Show ownership and lifetime visualization for a variable.
    Show(Show),
}

/// What to check.
#[derive(Clone, Debug)]
pub struct Check {
    /// The file or directory to check.
    pub path: Option<String>,
    /// Check all targets instead of the current one only.
    pub all_targets: bool,
    /// Check all features instead of the active ones only.
    pub all_features: bool,
}

#[derive(Clone, Debug)]
pub struct ToolchainArgs {
    pub command: Option<ToolchainCommands>,
}

/// A toolchain subcommand.
#[derive(Clone, Debug)]
pub enum ToolchainCommands {
    /// Install the toolchain, under `path` where given; with
    /// `skip_rustowl_toolchain`, the Rust toolchain only.
    Install { path: Option<String>, skip_rustowl_toolchain: bool },
    /// Uninstall the toolchain.
    Uninstall,
}

/// A shell that completions can be written for.
#[derive(Clone, Copy, PartialEq, Eq, Debug, Structural)]
pub enum Shell {
    Bash,
    Elvish,
    Fish,
    PowerShell,
    Zsh,
}

#[derive(Clone, Copy, Debug)]
pub struct Completions {
    /// The shell to write completions for.
    pub shell: Shell,
}

/// Which variable of which function to show.
#[derive(Clone, Debug)]
pub struct Show {
    /// The file the function path is relative to; the crate root if none.
    pub path: Option<String>,
    /// The path of the function, such as `module::function`.
    pub function_path: String,
    /// The name of the variable.
    pub variable: String,
    /// Check all targets.
    pub all_targets: bool,
    /// Check all features.
    pub all_features: bool,
}

/// Why a command line was refused.
#[derive(Clone, Copy, PartialEq, Eq, Debug, Structural)]
pub enum CliError {
    /// Help was asked for.
    DisplayHelp,
    /// An option or argument that is not known where it stands.
    UnknownArgument,
    /// A word where a subcommand was expected that names none.
    InvalidSubcommand,
    /// A value that is not one of those allowed.
    InvalidValue,
    /// An option that needs a value came without one.
    MissingValue,
    /// A required argument is missing.
    MissingRequired,
    /// An option was given twice.
    ArgumentConflict,
}

/// What has been read of a command line so far.
pub struct ParseView {
    pub version: bool,
    pub stdio: bool,
    pub quiet: u8,
    pub verbose: u8,
    /// 0 before a subcommand; 1 check, 2 clean, 3 toolchain, 4 completions,
    /// 5 show.
    pub cmd: u8,
    /// Under toolchain: 0 none yet, 1 install, 2 uninstall.
    pub sub: u8,
    pub all_targets: bool,
    pub all_features: bool,
    pub skip_toolchain: bool,
    pub path: Option<Seq<char>>,
    pub shell: Option<Shell>,
    pub function_path: Option<Seq<char>>,
    pub variable: Option<Seq<char>>,
    /// The positional arguments read for the subcommand.
    pub positionals: u8,
    /// A `--` was read: every later word is a positional argument.
    pub only_positional: bool,
    /// The next word is the value of `--path`.
    pub expect_path: bool,
}

pub open spec fn initial_view() -> ParseView {
    ParseView {
        version: false,
        stdio: false,
        quiet: 0,
        verbose: 0,
        cmd: 0,
        sub: 0,
        all_targets: false,
        all_features: false,
        skip_toolchain: false,
        path: None,
        shell: None,
        function_path: None,
        variable: None,
        positionals: 0,
        only_positional: false,
        expect_path: false,
    }
}

pub open spec fn count_up(n: u8) -> u8 {
    if n < 255 {
        (n + 1) as u8
    } else {
        n
    }
}

/// Where `--path` is an option: under `toolchain install` and `show`.
pub open spec fn takes_path(v: ParseView) -> bool {
    (v.cmd == 3 && v.sub == 1) || v.cmd == 5
}

/// Sets the `--path` value, once.
pub open spec fn with_path(v: ParseView, value: Seq<char>) -> Result<ParseView, CliError> {
    if v.path is Some {
        Err(CliError::ArgumentConflict)
    } else {
        Ok(ParseView { path: Some(value), expect_path: false, ..v })
    }
}

/// A flag that may be given once.
pub open spec fn flag_once(seen: bool) -> Result<bool, CliError> {
    if seen {
        Err(CliError::ArgumentConflict)
    } else {
        Ok(true)
    }
}

/// Reads long option `--name`, with `value` where it was written
/// `--name=value`.
pub open spec fn on_long(v: ParseView, name: Seq<char>, value: Option<Seq<char>>) -> Result<ParseView, CliError> {
    if name == "help"@ {
        Err(CliError::DisplayHelp)
    } else if name == "path"@ && takes_path(v) {
        match value {
            Some(x) => with_path(v, x),
            None => if v.path is Some {
                Err(CliError::ArgumentConflict)
            } else {
                Ok(ParseView { expect_path: true, ..v })
            },
        }
    } else if value is Some {
        Err(CliError::UnknownArgument)
    } else if name == "quiet"@ {
        Ok(ParseView { quiet: count_up(v.quiet), ..v })
    } else if name == "verbose"@ {
        Ok(ParseView { verbose: count_up(v.verbose), ..v })
    } else if name == "version"@ && v.cmd == 0 {
        match flag_once(v.version) {
            Ok(b) => Ok(ParseView { version: b, ..v }),
            Err(e) => Err(e),
        }
    } else if name == "stdio"@ && v.cmd == 0 {
        match flag_once(v.stdio) {
            Ok(b) => Ok(ParseView { stdio: b, ..v }),
            Err(e) => Err(e),
        }
    } else if name == "all-targets"@ && (v.cmd == 1 || v.cmd == 5) {
        match flag_once(v.all_targets) {
            Ok(b) => Ok(ParseView { all_targets: b, ..v }),
            Err(e) => Err(e),
        }
    } else if name == "all-features"@ && (v.cmd == 1 || v.cmd == 5) {
        match flag_once(v.all_features) {
            Ok(b) => Ok(ParseView { all_features: b, ..v }),
            Err(e) => Err(e),
        }
    } else if name == "skip-rustowl-toolchain"@ && v.cmd == 3 && v.sub == 1 {
        match flag_once(v.skip_toolchain) {
            Ok(b) => Ok(ParseView { skip_toolchain: b, ..v }),
            Err(e) => Err(e),
        }
    } else {
        Err(CliError::UnknownArgument)
    }
}

/// Reads the short flags `rest` of a word `-...`, one after the other; `-p`
/// under `show` takes the rest of the word, less a leading `=`, or the next
/// word as its value.
pub open spec fn on_shorts(v: ParseView, rest: Seq<char>) -> Result<ParseView, CliError>
    decreases rest.len(),
{
    if rest.len() == 0 {
        Ok(v)
    } else {
        let c = rest[0];
        let more = rest.drop_first();
        if c == 'h' {
            Err(CliError::DisplayHelp)
        } else if c == 'p' && v.cmd == 5 {
            if more.len() == 0 {
                if v.path is Some {
                    Err(CliError::ArgumentConflict)
                } else {
                    Ok(ParseView { expect_path: true, ..v })
                }
            } else if more[0] == '=' {
                with_path(v, more.drop_first())
            } else {
                with_path(v, more)
            }
        } else if c == 'q' {
            on_shorts(ParseView { quiet: count_up(v.quiet), ..v }, more)
        } else if c == 'v' {
            on_shorts(ParseView { verbose: count_up(v.verbose), ..v }, more)
        } else if c == 'V' && v.cmd == 0 {
            if v.version {
                Err(CliError::ArgumentConflict)
            } else {
                on_shorts(ParseView { version: true, ..v }, more)
            }
        } else {
            Err(CliError::UnknownArgument)
        }
    }
}

/// The shell named `s`.
pub open spec fn shell_named(s: Seq<char>) -> Option<Shell> {
    if s == "bash"@ {
        Some(Shell::Bash)
    } else if s == "elvish"@ {
        Some(Shell::Elvish)
    } else if s == "fish"@ {
        Some(Shell::Fish)
    } else if s == "powershell"@ {
        Some(Shell::PowerShell)
    } else if s == "zsh"@ {
        Some(Shell::Zsh)
    } else {
        None
    }
}

/// Reads a word that is no option: a subcommand, or an argument of one.
pub open spec fn on_positional(v: ParseView, w: Seq<char>) -> Result<ParseView, CliError> {
    if v.cmd == 0 {
        if w == "check"@ {
            Ok(ParseView { cmd: 1, ..v })
        } else if w == "clean"@ {
            Ok(ParseView { cmd: 2, ..v })
        } else if w == "toolchain"@ {
            Ok(ParseView { cmd: 3, ..v })
        } else if w == "completions"@ {
            Ok(ParseView { cmd: 4, ..v })
        } else if w == "show"@ {
            Ok(ParseView { cmd: 5, ..v })
        } else if w == "help"@ {
            Err(CliError::DisplayHelp)
        } else {
            Err(CliError::InvalidSubcommand)
        }
    } else if v.cmd == 1 && v.positionals == 0 {
        Ok(ParseView { path: Some(w), positionals: 1, ..v })
    } else if v.cmd == 3 && v.sub == 0 {
        if w == "install"@ {
            Ok(ParseView { sub: 1, ..v })
        } else if w == "uninstall"@ {
            Ok(ParseView { sub: 2, ..v })
        } else if w == "help"@ {
            Err(CliError::DisplayHelp)
        } else {
            Err(CliError::InvalidSubcommand)
        }
    } else if v.cmd == 4 && v.positionals == 0 {
        match shell_named(w) {
            Some(sh) => Ok(ParseView { shell: Some(sh), positionals: 1, ..v }),
            None => Err(CliError::InvalidValue),
        }
    } else if v.cmd == 5 && v.positionals == 0 {
        Ok(ParseView { function_path: Some(w), positionals: 1, ..v })
    } else if v.cmd == 5 && v.positionals == 1 {
        Ok(ParseView { variable: Some(w), positionals: 2, ..v })
    } else {
        Err(CliError::UnknownArgument)
    }
}

/// The position of the first `=` in `s`.
pub open spec fn first_eq(s: Seq<char>) -> Option<int>
    decreases s.len(),
{
    if s.len() == 0 {
        None
    } else if s[0] == '=' {
        Some(0)
    } else {
        match first_eq(s.drop_first()) {
            Some(i) => Some(i + 1),
            None => None,
        }
    }
}

/// Reads word `w` of the command line.
pub open spec fn step(v: ParseView, w: Seq<char>) -> Result<ParseView, CliError> {
    if v.expect_path {
        if w.len() > 1 && w[0] == '-' {
            Err(CliError::MissingValue)
        } else {
            with_path(v, w)
        }
    } else if !v.only_positional && w == seq!['-', '-'] {
        Ok(ParseView { only_positional: true, ..v })
    } else if !v.only_positional && w.len() > 2 && w[0] == '-' && w[1] == '-' {
        let body = w.skip(2);
        match first_eq(body) {
            Some(i) => on_long(v, body.take(i), Some(body.skip(i + 1))),
            None => on_long(v, body, None),
        }
    } else if !v.only_positional && w.len() >= 2 && w[0] == '-' {
        on_shorts(v, w.drop_first())
    } else {
        on_positional(v, w)
    }
}

/// Reads the words `ws` in turn.
pub open spec fn read_words(ws: Seq<Seq<char>>) -> Result<ParseView, CliError>
    decreases ws.len(),
{
    if ws.len() == 0 {
        Ok(initial_view())
    } else {
        match read_words(ws.drop_last()) {
            Ok(v) => step(v, ws.last()),
            Err(e) => Err(e),
        }
    }
}

/// What is still missing once all words are read.
pub open spec fn missing(v: ParseView) -> Option<CliError> {
    if v.expect_path {
        Some(CliError::MissingValue)
    } else if v.cmd == 4 && v.shell is None {
        Some(CliError::MissingRequired)
    } else if v.cmd == 5 && (v.function_path is None || v.variable is None) {
        Some(CliError::MissingRequired)
    } else {
        None
    }
}

pub open spec fn opt_text(o: Option<String>) -> Option<Seq<char>> {
    match o {
        Some(s) => Some(s@),
        None => None,
    }
}

/// `c` holds what was read.
pub open spec fn cli_from(c: Cli, v: ParseView) -> bool {
    &&& c.version == v.version
    &&& c.stdio == v.stdio
    &&& c.quiet == v.quiet
    &&& c.verbose == v.verbose
    &&& if v.cmd == 1 {
        c.command matches Some(Commands::Check(ch)) && opt_text(ch.path) == v.path
            && ch.all_targets == v.all_targets && ch.all_features == v.all_features
    } else if v.cmd == 2 {
        c.command matches Some(Commands::Clean)
    } else if v.cmd == 3 {
        c.command matches Some(Commands::Toolchain(t)) && if v.sub == 1 {
            t.command matches Some(ToolchainCommands::Install { path, skip_rustowl_toolchain })
                && opt_text(path) == v.path && skip_rustowl_toolchain == v.skip_toolchain
        } else if v.sub == 2 {
            t.command matches Some(ToolchainCommands::Uninstall)
        } else {
            t.command is None
        }
    } else if v.cmd == 4 {
        c.command matches Some(Commands::Completions(cs)) && Some(cs.shell) == v.shell
    } else if v.cmd == 5 {
        c.command matches Some(Commands::Show(sh)) && opt_text(sh.path) == v.path && Some(
            sh.function_path@,
        ) == v.function_path && Some(sh.variable@) == v.variable && sh.all_targets
            == v.all_targets && sh.all_features == v.all_features
    } else {
        c.command is None
    }
}

/// The words of a command line, the program name left out.
pub open spec fn words(args: Seq<&str>) -> Seq<Seq<char>> {
    if args.len() == 0 {
        Seq::empty()
    } else {
        args.skip(1).map_values(|a: &str| a@)
    }
}

/// What has been read of a command line so far.
struct ParseState {
    version: bool,
    stdio: bool,
    quiet: u8,
    verbose: u8,
    cmd: u8,
    sub: u8,
    all_targets: bool,
    all_features: bool,
    skip_toolchain: bool,
    path: Option<String>,
    shell: Option<Shell>,
    function_path: Option<String>,
    variable: Option<String>,
    positionals: u8,
    only_positional: bool,
    expect_path: bool,
}

impl ParseState {
    spec fn view(&self) -> ParseView {
        ParseView {
            version: self.version,
            stdio: self.stdio,
            quiet: self.quiet,
            verbose: self.verbose,
            cmd: self.cmd,
            sub: self.sub,
            all_targets: self.all_targets,
            all_features: self.all_features,
            skip_toolchain: self.skip_toolchain,
            path: opt_text(self.path),
            shell: self.shell,
            function_path: opt_text(self.function_path),
            variable: opt_text(self.variable),
            positionals: self.positionals,
            only_positional: self.only_positional,
            expect_path: self.expect_path,
        }
    }

    fn new() -> (r: Self)
        ensures
            r.view() == initial_view(),
    {
        ParseState {
            version: false,
            stdio: false,
            quiet: 0,
            verbose: 0,
            cmd: 0,
            sub: 0,
            all_targets: false,
            all_features: false,
            skip_toolchain: false,
            path: None,
            shell: None,
            function_path: None,
            variable: None,
            positionals: 0,
            only_positional: false,
            expect_path: false,
        }
    }

    fn set_path(&mut self, value: String) -> (r: Result<(), CliError>)
        ensures
            match with_path(old(self).view(), value@) {
                Ok(w) => r is Ok && final(self).view() == w,
                Err(e) => r == Err::<(), CliError>(e),
            },
    {
        if self.path.is_some() {
            return Err(CliError::ArgumentConflict);
        }
        self.path = Some(value);
        self.expect_path = false;
        Ok(())
    }

    fn on_long(&mut self, name: &String, value: Option<String>) -> (r: Result<(), CliError>)
        ensures
            match on_long(old(self).view(), name@, opt_text(value)) {
                Ok(w) => r is Ok && final(self).view() == w,
                Err(e) => r == Err::<(), CliError>(e),
            },
    {
        proof {
            reveal_strlit("help");
            reveal_strlit("path");
            reveal_strlit("quiet");
            reveal_strlit("verbose");
            reveal_strlit("version");
            reveal_strlit("stdio");
            reveal_strlit("all-targets");
            reveal_strlit("all-features");
            reveal_strlit("skip-rustowl-toolchain");
        }
        let takes_path = (self.cmd == 3 && self.sub == 1) || self.cmd == 5;
        if *name == "help".to_owned() {
            return Err(CliError::DisplayHelp);
        }
        if *name == "path".to_owned() && takes_path {
            return match value {
                Some(x) => self.set_path(x),
                None => {
                    if self.path.is_some() {
                        Err(CliError::ArgumentConflict)
                    } else {
                        self.expect_path = true;
                        Ok(())
                    }
                },
            };
        }
        if value.is_some() {
            return Err(CliError::UnknownArgument);
        }
        if *name == "quiet".to_owned() {
            if self.quiet < 255 {
                self.quiet = self.quiet + 1;
            }
            Ok(())
        } else if *name == "verbose".to_owned() {
            if self.verbose < 255 {
                self.verbose = self.verbose + 1;
            }
            Ok(())
        } else if *name == "version".to_owned() && self.cmd == 0 {
            if self.version {
                return Err(CliError::ArgumentConflict);
            }
            self.version = true;
            Ok(())
        } else if *name == "stdio".to_owned() && self.cmd == 0 {
            if self.stdio {
                return Err(CliError::ArgumentConflict);
            }
            self.stdio = true;
            Ok(())
        } else if *name == "all-targets".to_owned() && (self.cmd == 1 || self.cmd == 5) {
            if self.all_targets {
                return Err(CliError::ArgumentConflict);
            }
            self.all_targets = true;
            Ok(())
        } else if *name == "all-features".to_owned() && (self.cmd == 1 || self.cmd == 5) {
            if self.all_features {
                return Err(CliError::ArgumentConflict);
            }
            self.all_features = true;
            Ok(())
        } else if *name == "skip-rustowl-toolchain".to_owned() && self.cmd == 3 && self.sub == 1 {
            if self.skip_toolchain {
                return Err(CliError::ArgumentConflict);
            }
            self.skip_toolchain = true;
            Ok(())
        } else {
            Err(CliError::UnknownArgument)
        }
    }

    fn on_shorts(&mut self, w: &Vec<char>) -> (r: Result<(), CliError>)
        requires
            old(self).view().cmd <= 5,
            w@.len() >= 1,
        ensures
            match on_shorts(old(self).view(), w@.drop_first()) {
                Ok(v) => r is Ok && final(self).view() == v,
                Err(e) => r == Err::<(), CliError>(e),
            },
    {
        let ghost goal = on_shorts(old(self).view(), w@.drop_first());
        let mut k: usize = 1;
        proof {
            assert(w@.skip(1) =~= w@.drop_first());
        }
        while k < w.len()
            invariant
                1 <= k <= w@.len(),
                goal == on_shorts(old(self).view(), w@.drop_first()),
                goal == on_shorts(self.view(), w@.skip(k as int)),
            decreases w@.len() - k,
        {
            let c = w[k];
            let ghost rest = w@.skip(k as int);
            proof {
                assert(rest[0] == c);
                assert(rest.drop_first() =~= w@.skip(k + 1));
            }
            if c == 'h' {
                return Err(CliError::DisplayHelp);
            } else if c == 'p' && self.cmd == 5 {
                if k + 1 == w.len() {
                    if self.path.is_some() {
                        return Err(CliError::ArgumentConflict);
                    }
                    self.expect_path = true;
                    return Ok(());
                } else if w[k + 1] == '=' {
                    let value = string_of_range(w, k + 2, w.len());
                    proof {
                        assert(rest.drop_first().drop_first() =~= w@.subrange(k + 2, w@.len() as int));
                    }
                    return self.set_path(value);
                } else {
                    let value = string_of_range(w, k + 1, w.len());
                    proof {
                        assert(rest.drop_first() =~= w@.subrange(k + 1, w@.len() as int));
                    }
                    return self.set_path(value);
                }
            } else if c == 'q' {
                if self.quiet < 255 {
                    self.quiet = self.quiet + 1;
                }
            } else if c == 'v' {
                if self.verbose < 255 {
                    self.verbose = self.verbose + 1;
                }
            } else if c == 'V' && self.cmd == 0 {
                if self.version {
                    return Err(CliError::ArgumentConflict);
                }
                self.version = true;
            } else {
                return Err(CliError::UnknownArgument);
            }
            k = k + 1;
        }
        proof {
            assert(w@.skip(k as int).len() == 0);
        }
        Ok(())
    }
}

fn shell_of(w: &String) -> (r: Option<Shell>)
    ensures
        r == shell_named(w@),
{
    proof {
        reveal_strlit("bash");
        reveal_strlit("elvish");
        reveal_strlit("fish");
        reveal_strlit("powershell");
        reveal_strlit("zsh");
    }
    if *w == "bash".to_owned() {
        Some(Shell::Bash)
    } else if *w == "elvish".to_owned() {
        Some(Shell::Elvish)
    } else if *w == "fish".to_owned() {
        Some(Shell::Fish)
    } else if *w == "powershell".to_owned() {
        Some(Shell::PowerShell)
    } else if *w == "zsh".to_owned() {
        Some(Shell::Zsh)
    } else {
        None
    }
}

proof fn lemma_first_eq(s: Seq<char>, i: int)
    requires
        0 <= i <= s.len(),
        forall|j: int| 0 <= j < i ==> s[j] != '=',
        i == s.len() || s[i] == '=',
    ensures
        first_eq(s) == if i == s.len() {
            None::<int>
        } else {
            Some(i)
        },
    decreases s.len(),
{
    if s.len() > 0 && i > 0 {
        lemma_first_eq(s.drop_first(), i - 1);
    }
}

impl ParseState {
    fn on_positional(&mut self, w: String) -> (r: Result<(), CliError>)
        ensures
            match on_positional(old(self).view(), w@) {
                Ok(v) => r is Ok && final(self).view() == v,
                Err(e) => r == Err::<(), CliError>(e),
            },
    {
        proof {
            reveal_strlit("check");
            reveal_strlit("clean");
            reveal_strlit("toolchain");
            reveal_strlit("completions");
            reveal_strlit("show");
            reveal_strlit("help");
            reveal_strlit("install");
            reveal_strlit("uninstall");
        }
        if self.cmd == 0 {
            if w == "check".to_owned() {
                self.cmd = 1;
                Ok(())
            } else if w == "clean".to_owned() {
                self.cmd = 2;
                Ok(())
            } else if w == "toolchain".to_owned() {
                self.cmd = 3;
                Ok(())
            } else if w == "completions".to_owned() {
                self.cmd = 4;
                Ok(())
            } else if w == "show".to_owned() {
                self.cmd = 5;
                Ok(())
            } else if w == "help".to_owned() {
                Err(CliError::DisplayHelp)
            } else {
                Err(CliError::InvalidSubcommand)
            }
        } else if self.cmd == 1 && self.positionals == 0 {
            self.path = Some(w);
            self.positionals = 1;
            Ok(())
        } else if self.cmd == 3 && self.sub == 0 {
            if w == "install".to_owned() {
                self.sub = 1;
                Ok(())
            } else if w == "uninstall".to_owned() {
                self.sub = 2;
                Ok(())
            } else if w == "help".to_owned() {
                Err(CliError::DisplayHelp)
            } else {
                Err(CliError::InvalidSubcommand)
            }
        } else if self.cmd == 4 && self.positionals == 0 {
            match shell_of(&w) {
                Some(sh) => {
                    self.shell = Some(sh);
                    self.positionals = 1;
                    Ok(())
                },
                None => Err(CliError::InvalidValue),
            }
        } else if self.cmd == 5 && self.positionals == 0 {
            self.function_path = Some(w);
            self.positionals = 1;
            Ok(())
        } else if self.cmd == 5 && self.positionals == 1 {
            self.variable = Some(w);
            self.positionals = 2;
            Ok(())
        } else {
            Err(CliError::UnknownArgument)
        }
    }

    /// Reads word `word`.
    fn step(&mut self, word: &str) -> (r: Result<(), CliError>)
        requires
            old(self).view().cmd <= 5,
        ensures
            match step(old(self).view(), word@) {
                Ok(v) => r is Ok && final(self).view() == v && v.cmd <= 5,
                Err(e) => r == Err::<(), CliError>(e),
            },
    {
        let w = chars_of(word);
        let n = w.len();
        if self.expect_path {
            if n > 1 && w[0] == '-' {
                return Err(CliError::MissingValue);
            }
            return self.set_path(word.to_owned());
        }
        if !self.only_positional && n == 2 && w[0] == '-' && w[1] == '-' {
            self.only_positional = true;
            proof {
                assert(word@ =~= seq!['-', '-']);
            }
            return Ok(());
        }
        proof {
            if word@ == seq!['-', '-'] {
                assert(n == 2 && w@[0] == '-' && w@[1] == '-');
            }
        }
        if !self.only_positional && n > 2 && w[0] == '-' && w[1] == '-' {
            let ghost body = word@.skip(2);
            let mut i: usize = 2;
            while i < n && w[i] != '='
                invariant
                    2 <= i <= n,
                    n == w@.len(),
                    forall|j: int| 2 <= j < i ==> w@[j] != '=',
                decreases n - i,
            {
                i = i + 1;
            }
            proof {
                assert forall|j: int| 0 <= j < i - 2 implies body[j] != '=' by {
                    assert(body[j] == w@[j + 2]);
                }
                if i < n {
                    assert(body[i - 2] == w@[i as int]);
                }
                lemma_first_eq(body, i - 2);
            }
            let name = string_of_range(&w, 2, i);
            proof {
                assert(name@ =~= body.take(i - 2));
            }
            if i < n {
                let value = string_of_range(&w, i + 1, n);
                proof {
                    assert(value@ =~= body.skip(i - 2 + 1));
                }
                return self.on_long(&name, Some(value));
            } else {
                proof {
                    assert(name@ =~= body);
                }
                return self.on_long(&name, None);
            }
        }
        if !self.only_positional && n >= 2 && w[0] == '-' {
            proof {
                lemma_on_shorts_cmd(self.view(), w@.drop_first());
            }
            return self.on_shorts(&w);
        }
        self.on_positional(word.to_owned())
    }

    /// The command line read, where nothing is missing.
    fn finish(self) -> (r: Result<Cli, CliError>)
        ensures
            match missing(self.view()) {
                Some(e) => r == Err::<Cli, CliError>(e),
                None => r matches Ok(c) && cli_from(c, self.view()),
            },
    {
        if self.expect_path {
            return Err(CliError::MissingValue);
        }
        let command = if self.cmd == 1 {
            Some(Commands::Check(Check { path: self.path, all_targets: self.all_targets, all_features: self.all_features }))
        } else if self.cmd == 2 {
            Some(Commands::Clean)
        } else if self.cmd == 3 {
            let command = if self.sub == 1 {
                Some(ToolchainCommands::Install { path: self.path, skip_rustowl_toolchain: self.skip_toolchain })
            } else if self.sub == 2 {
                Some(ToolchainCommands::Uninstall)
            } else {
                None
            };
            Some(Commands::Toolchain(ToolchainArgs { command }))
        } else if self.cmd == 4 {
            match self.shell {
                Some(shell) => Some(Commands::Completions(Completions { shell })),
                None => {
                    return Err(CliError::MissingRequired);
                },
            }
        } else if self.cmd == 5 {
            match (self.function_path, self.variable) {
                (Some(function_path), Some(variable)) => Some(Commands::Show(Show {
                    path: self.path,
                    function_path,
                    variable,
                    all_targets: self.all_targets,
                    all_features: self.all_features,
                })),
                _ => {
                    return Err(CliError::MissingRequired);
                },
            }
        } else {
            None
        };
        Ok(Cli { version: self.version, quiet: self.quiet, verbose: self.verbose, stdio: self.stdio, command })
    }
}

impl Cli {
    /// Reads a command line, the program name first: global options, then a
    /// subcommand with its options and arguments. Long options may carry
    /// their value after `=`; short flags may be grouped; after `--` every
    /// word is an argument. `-q`/`--quiet` and `-v`/`--verbose` count and may
    /// come anywhere; the others may be given once, where they belong.
    pub fn try_parse_from(args: Vec<&str>) -> (r: Result<Cli, CliError>)
        ensures
            match read_words(words(args@)) {
                Err(e) => r == Err::<Cli, CliError>(e),
                Ok(v) => match missing(v) {
                    Some(e) => r == Err::<Cli, CliError>(e),
                    None => r matches Ok(c) && cli_from(c, v),
                },
            },
    {
        let ghost ws = words(args@);
        let mut st = ParseState::new();
        let mut i: usize = 1;
        proof {
            if args@.len() > 0 {
                assert(ws.take(0) =~= Seq::<Seq<char>>::empty());
            } else {
                assert(ws =~= Seq::<Seq<char>>::empty());
            }
        }
        while i < args.len()
            invariant
                1 <= i,
                i <= args@.len() || args@.len() == 0,
                ws == words(args@),
                args@.len() > 0 ==> read_words(ws.take(i - 1)) == Ok::<ParseView, CliError>(st.view()),
                args@.len() == 0 ==> st.view() == initial_view(),
                st.view().cmd <= 5,
            decreases args@.len() - i,
        {
            proof {
                assert(ws.take(i as int).drop_last() =~= ws.take(i - 1));
                assert(ws.take(i as int).last() == args@[i as int]@);
            }
            match st.step(args[i]) {
                Ok(()) => {},
                Err(e) => {
                    proof {
                        lemma_read_words_err(ws, i as int, e);
                    }
                    return Err(e);
                },
            }
            i = i + 1;
        }
        proof {
            if args@.len() > 0 {
                assert(ws.take(i - 1) =~= ws);
            }
        }
        st.finish()
    }
}

/// Once a word is refused, the whole command line is.
proof fn lemma_read_words_err(ws: Seq<Seq<char>>, i: int, e: CliError)
    requires
        1 <= i <= ws.len(),
        read_words(ws.take(i)) == Err::<ParseView, CliError>(e),
    ensures
        read_words(ws) == Err::<ParseView, CliError>(e),
    decreases ws.len() - i,
{
    if i < ws.len() {
        assert(ws.take(i + 1).drop_last() =~= ws.take(i));
        lemma_read_words_err(ws, i + 1, e);
    } else {
        assert(ws.take(i) =~= ws);
    }
}

proof fn lemma_on_shorts_cmd(v: ParseView, rest: Seq<char>)
    ensures
        on_shorts(v, rest) matches Ok(w) ==> w.cmd == v.cmd,
    decreases rest.len(),
{
    if rest.len() > 0 {
        let more = rest.drop_first();
        lemma_on_shorts_cmd(ParseView { quiet: count_up(v.quiet), ..v }, more);
        lemma_on_shorts_cmd(ParseView { verbose: count_up(v.verbose), ..v }, more);
        lemma_on_shorts_cmd(ParseView { version: true, ..v }, more);
    }
}

/// `v`, or `not found` where it is empty.
pub open spec fn or_not_found(v: Seq<char>) -> Seq<char> {
    if v.len() == 0 {
        "not found"@
    } else {
        v
    }
}

/// The lines that `--version` prints: with `-V` only the name and version;
/// else also the git tag, the commit, the build time and the compiler and
/// toolchain the program was built with, `not found` for each that is empty.
pub open spec fn version_text(
    version: Seq<char>,
    short: bool,
    tag: Seq<char>,
    commit: Seq<char>,
    build_time: Seq<char>,
    rustc_version: Seq<char>,
    toolchain: Seq<char>,
) -> Seq<Seq<char>> {
    if short {
        seq!["rustowl "@ + version]
    } else {
        seq![
            "rustowl "@ + version,
            "tag:"@ + or_not_found(tag),
            "commit_hash:"@ + or_not_found(commit),
            "build_time:"@ + or_not_found(build_time),
            if rustc_version.len() == 0 {
                "build_env:"@ + "not found"@
            } else {
                "build_env:"@ + rustc_version + ","@ + toolchain
            },
        ]
    }
}

fn labeled(label: &str, v: &str) -> (r: String)
    ensures
        r@ == label@ + or_not_found(v@),
{
    let mut s = label.to_owned();
    if v.unicode_len() == 0 {
        s.append("not found");
    } else {
        s.append(v);
    }
    s
}

/// The lines that `--version` prints (see `version_text`).
pub fn version_lines(
    version: &str,
    short: bool,
    tag: &str,
    commit: &str,
    build_time: &str,
    rustc_version: &str,
    toolchain: &str,
) -> (r: Vec<String>)
    ensures
        r@.map_values(|l: String| l@) == version_text(version@, short, tag@, commit@, build_time@, rustc_version@, toolchain@),
{
    let mut r: Vec<String> = Vec::new();
    let mut first = "rustowl ".to_owned();
    first.append(version);
    r.push(first);
    if !short {
        r.push(labeled("tag:", tag));
        r.push(labeled("commit_hash:", commit));
        r.push(labeled("build_time:", build_time));
        let mut env = "build_env:".to_owned();
        if rustc_version.unicode_len() == 0 {
            env.append("not found");
        } else {
            env.append(rustc_version);
            env.append(",");
            env.append(toolchain);
        }
        r.push(env);
    }
    proof {
        assert(r@.map_values(|l: String| l@) =~= version_text(version@, short, tag@, commit@, build_time@, rustc_version@, toolchain@));
    }
    r
}

} // verus!

