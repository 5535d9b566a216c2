//! The developer tasks' helpers: commands to run and how they are shown, the
//! host's operating system and package manager, and the tools they need.

use crate::cache::{lowered, parsed_u64, to_ascii_lowercase};
use crate::rustowlc::{contains_text, starts_with, str_contains, str_starts_with};
use crate::text::{chars_of, decimal, push_decimal, string_of_range};
use vstd::prelude::*;

verus! {

/// A command to run: the program, its arguments, the directory to run it
/// in, and the environment variables to set.
#[derive(Clone, Debug)]
pub struct Cmd {
    pub program: String,
    pub args: Vec<String>,
    pub cwd: Option<String>,
    pub env: Vec<(String, String)>,
}

impl Cmd {
    pub fn new(program: String) -> (r: Self)
        ensures
            r.program@ == program@,
            r.args@.len() == 0,
            r.cwd is None,
            r.env@.len() == 0,
    {
        Self { program, args: Vec::new(), cwd: None, env: Vec::new() }
    }

    /// The command with `arg` added to its arguments.
    pub fn arg(self, arg: String) -> (r: Self)
        ensures
            r.program == self.program,
            r.args@ == self.args@.push(arg),
            r.cwd == self.cwd,
            r.env@ == self.env@,
    {
        let mut s = self;
        s.args.push(arg);
        s
    }

    /// The command with `args` added to its arguments.
    pub fn args(self, args: Vec<String>) -> (r: Self)
        ensures
            r.program == self.program,
            r.args@ == self.args@ + args@,
            r.cwd == self.cwd,
            r.env@ == self.env@,
    {
        let mut s = self;
        let mut args = args;
        s.args.append(&mut args);
        s
    }

    /// The command run in directory `cwd`.
    pub fn cwd(self, cwd: String) -> (r: Self)
        ensures
            r.program == self.program,
            r.args@ == self.args@,
            r.cwd == Some(cwd),
            r.env@ == self.env@,
    {
        let mut s = self;
        s.cwd = Some(cwd);
        s
    }

    /// The command with environment variable `key` set to `value`.
    pub fn env(self, key: String, value: String) -> (r: Self)
        ensures
            r.program == self.program,
            r.args@ == self.args@,
            r.cwd == self.cwd,
            r.env@ == self.env@.push((key, value)),
    {
        let mut s = self;
        s.env.push((key, value));
        s
    }
}

/// A character that a shell takes as it is, without quotes.
pub open spec fn shell_safe(c: char) -> bool {
    ('a' <= c && c <= 'z') || ('A' <= c && c <= 'Z') || ('0' <= c && c <= '9') || c == '-' || c
        == '.' || c == '_' || c == '/' || c == ':'
}

/// The characters of `s` with each single quote written as `'\''`.
pub open spec fn quote_body(s: Seq<char>) -> Seq<char>
    decreases s.len(),
{
    if s.len() == 0 {
        Seq::empty()
    } else if s.last() == '\'' {
        quote_body(s.drop_last()) + seq!['\'', '\\', '\'', '\'']
    } else {
        quote_body(s.drop_last()).push(s.last())
    }
}

/// `s` as a shell reads it back: two quotes for the empty string, `s` itself
/// where every character is safe, and otherwise `s` in single quotes.
pub open spec fn shell_escaped(s: Seq<char>) -> Seq<char> {
    if s.len() == 0 {
        seq!['\'', '\'']
    } else if forall|i: int| 0 <= i < s.len() ==> shell_safe(#[trigger] s[i]) {
        s
    } else {
        seq!['\''] + quote_body(s) + seq!['\'']
    }
}

fn is_shell_safe(c: char) -> (r: bool)
    ensures
        r == shell_safe(c),
{
    ('a' <= c && c <= 'z') || ('A' <= c && c <= 'Z') || ('0' <= c && c <= '9') || c == '-' || c
        == '.' || c == '_' || c == '/' || c == ':'
}

/// `s` quoted for a shell where it needs quotes.
pub fn shell_escape(s: &str) -> (r: String)
    ensures
        r@ == shell_escaped(s@),
{
    let mut all_safe = true;
    let mut body = String::new();
    for c in it: s.chars()
        invariant
            it.seq() == s@,
            all_safe == (forall|i: int| 0 <= i < it.index() ==> shell_safe(#[trigger] s@[i])),
            body@ == quote_body(s@.take(it.index() as int)),
    {
        let ghost k = it.index() as int;
        proof {
            assert(s@.take(k + 1).drop_last() =~= s@.take(k));
            assert(s@.take(k + 1).last() == c);
        }
        if !is_shell_safe(c) {
            all_safe = false;
        }
        if c == '\'' {
            body.push('\'');
            body.push('\\');
            body.push('\'');
            body.push('\'');
            proof {
                assert(body@ =~= quote_body(s@.take(k)) + seq!['\'', '\\', '\'', '\'']);
            }
        } else {
            body.push(c);
        }
        proof {
            assert forall|i: int| 0 <= i < k + 1 && all_safe implies shell_safe(#[trigger] s@[i]) by {
            }
        }
    }
    proof {
        assert(s@.take(s@.len() as int) =~= s@);
    }
    if s.is_empty() {
        proof {
            reveal_strlit("''");
        }
        return "''".to_owned();
    }
    if all_safe {
        return s.to_owned();
    }
    let mut out = String::new();
    out.push('\'');
    out.append(body.as_str());
    out.push('\'');
    proof {
        assert(out@ =~= seq!['\''] + quote_body(s@) + seq!['\'']);
    }
    out
}

/// The program followed by each argument, quoted for a shell and preceded
/// by a space.
pub open spec fn shown_cmd(program: Seq<char>, args: Seq<String>) -> Seq<char>
    decreases args.len(),
{
    if args.len() == 0 {
        program
    } else {
        shown_cmd(program, args.drop_last()) + seq![' '] + shell_escaped(args.last()@)
    }
}

/// The command as a shell line.
pub fn display_cmd(program: &str, args: &[String]) -> (r: String)
    ensures
        r@ == shown_cmd(program@, args@),
{
    let mut s = program.to_owned();
    let mut i: usize = 0;
    while i < args.len()
        invariant
            i <= args@.len(),
            s@ == shown_cmd(program@, args@.take(i as int)),
        decreases args@.len() - i,
    {
        proof {
            assert(args@.take(i + 1).drop_last() =~= args@.take(i as int));
        }
        s.push(' ');
        let e = shell_escape(args[i].as_str());
        s.append(e.as_str());
        proof {
            assert(s@ =~= shown_cmd(program@, args@.take(i as int)) + seq![' '] + shell_escaped(
                args@[i as int]@,
            ));
        }
        i = i + 1;
    }
    proof {
        assert(args@.take(i as int) =~= args@);
    }
    s
}

/// The operating system the tasks run on.
#[derive(Clone, Copy, PartialEq, Eq, Debug, Structural)]
pub enum OsKind {
    Linux,
    Macos,
    Windows,
    Other,
}

/// The kind of the operating system named `target_os`, as Rust names them.
pub fn os_kind(target_os: &str) -> (r: OsKind)
    ensures
        r == (if target_os@ == "linux"@ {
            OsKind::Linux
        } else if target_os@ == "macos"@ {
            OsKind::Macos
        } else if target_os@ == "windows"@ {
            OsKind::Windows
        } else {
            OsKind::Other
        }),
{
    let name = target_os.to_owned();
    if name == "linux".to_owned() {
        OsKind::Linux
    } else if name == "macos".to_owned() {
        OsKind::Macos
    } else if name == "windows".to_owned() {
        OsKind::Windows
    } else {
        OsKind::Other
    }
}

/// A package manager that can install system packages.
#[derive(Clone, Copy, PartialEq, Eq, Debug, Structural)]
pub enum PackageManager {
    Apt,
    Dnf,
    Yum,
    Pacman,
    Brew,
}

/// Some name of `found` reads `tool`.
pub open spec fn has_tool(found: Seq<String>, tool: Seq<char>) -> bool {
    exists|i: int| 0 <= i < found.len() && (#[trigger] found[i])@ == tool
}

fn find_tool(found: &Vec<String>, tool: &str) -> (r: bool)
    ensures
        r == has_tool(found@, tool@),
{
    let t = tool.to_owned();
    let mut i: usize = 0;
    while i < found.len()
        invariant
            i <= found@.len(),
            t@ == tool@,
            forall|k: int| 0 <= k < i ==> (#[trigger] found@[k])@ != tool@,
        decreases found@.len() - i,
    {
        if found[i] == t {
            return true;
        }
        i = i + 1;
    }
    false
}

/// The first of apt-get, dnf, yum, pacman and brew that is among the tools
/// `found` on the search path.
pub fn detect_package_manager(found: &Vec<String>) -> (r: Option<PackageManager>)
    ensures
        r == (if has_tool(found@, "apt-get"@) {
            Some(PackageManager::Apt)
        } else if has_tool(found@, "dnf"@) {
            Some(PackageManager::Dnf)
        } else if has_tool(found@, "yum"@) {
            Some(PackageManager::Yum)
        } else if has_tool(found@, "pacman"@) {
            Some(PackageManager::Pacman)
        } else if has_tool(found@, "brew"@) {
            Some(PackageManager::Brew)
        } else {
            None
        }),
{
    if find_tool(found, "apt-get") {
        return Some(PackageManager::Apt);
    }
    if find_tool(found, "dnf") {
        return Some(PackageManager::Dnf);
    }
    if find_tool(found, "yum") {
        return Some(PackageManager::Yum);
    }
    if find_tool(found, "pacman") {
        return Some(PackageManager::Pacman);
    }
    if find_tool(found, "brew") {
        return Some(PackageManager::Brew);
    }
    None
}

/// `Ok` where the tool is on the search path; the error names it otherwise.
pub fn ensure_tool(tool: &str, on_path: bool) -> (r: Result<(), String>)
    ensures
        on_path ==> r is Ok,
        !on_path ==> (r matches Err(e) && e@ == "required tool not found in PATH: "@ + tool@),
{
    if !on_path {
        let mut e = "required tool not found in PATH: ".to_owned();
        e.append(tool);
        return Err(e);
    }
    Ok(())
}

/// The characters of each string of `s`.
pub open spec fn views(s: Seq<String>) -> Seq<Seq<char>> {
    s.map_values(|a: String| a@)
}

/// Command `c` runs `program` with arguments `args`, in the current
/// directory and environment.
pub open spec fn runs(c: Cmd, program: Seq<char>, args: Seq<Seq<char>>) -> bool {
    &&& c.program@ == program
    &&& views(c.args@) == args
    &&& c.cwd is None
    &&& c.env@.len() == 0
}

/// The commands that install `pkgs` with package manager `mgr`, in the
/// order they run.
pub open spec fn install_plan(mgr: PackageManager, pkgs: Seq<Seq<char>>, r: Seq<Cmd>) -> bool {
    match mgr {
        PackageManager::Apt => r.len() == 2 && runs(r[0], "sudo"@, seq!["apt-get"@, "update"@])
            && runs(r[1], "sudo"@, seq!["apt-get"@, "install"@, "-y"@] + pkgs),
        PackageManager::Dnf => r.len() == 1 && runs(r[0], "sudo"@, seq!["dnf"@, "install"@, "-y"@] + pkgs),
        PackageManager::Yum => r.len() == 1 && runs(r[0], "sudo"@, seq!["yum"@, "install"@, "-y"@] + pkgs),
        PackageManager::Pacman => r.len() == 1 && runs(
            r[0],
            "sudo"@,
            seq!["pacman"@, "-S"@, "--noconfirm"@] + pkgs,
        ),
        PackageManager::Brew => r.len() == 1 && runs(r[0], "brew"@, seq!["install"@] + pkgs),
    }
}

/// A copy of the strings of `v`.
fn copy_strings(v: &Vec<String>) -> (r: Vec<String>)
    ensures
        views(r@) == views(v@),
{
    let mut r: Vec<String> = Vec::new();
    let mut i: usize = 0;
    while i < v.len()
        invariant
            i <= v@.len(),
            r@.len() == i,
            forall|k: int| 0 <= k < i ==> (#[trigger] r@[k])@ == v@[k]@,
        decreases v@.len() - i,
    {
        let c = v[i].clone();
        r.push(c);
        i = i + 1;
    }
    assert(views(r@) =~= views(v@));
    r
}

/// `program` run with `head` and then `pkgs` as arguments.
fn command_with(program: &str, head: Vec<String>, pkgs: &Vec<String>) -> (r: Cmd)
    ensures
        runs(r, program@, views(head@) + views(pkgs@)),
{
    let rest = copy_strings(pkgs);
    let r = Cmd::new(program.to_owned()).args(head).args(rest);
    assert(views(r.args@) =~= views(head@) + views(pkgs@));
    r
}

/// The commands that install packages `pkgs` with `mgr`: apt refreshes its
/// index first; all but brew run under sudo.
pub fn install_commands(mgr: PackageManager, pkgs: &Vec<String>) -> (r: Vec<Cmd>)
    ensures
        install_plan(mgr, views(pkgs@), r@),
{
    match mgr {
        PackageManager::Apt => {
            let update = vec!["apt-get".to_owned(), "update".to_owned()];
            let install = vec!["apt-get".to_owned(), "install".to_owned(), "-y".to_owned()];
            let empty: Vec<String> = Vec::new();
            let a = command_with("sudo", update, &empty);
            let b = command_with("sudo", install, pkgs);
            proof {
                assert(views(update@) + views(empty@) =~= seq!["apt-get"@, "update"@]);
                assert(views(install@) =~= seq!["apt-get"@, "install"@, "-y"@]);
            }
            vec![a, b]
        },
        PackageManager::Dnf => {
            let head = vec!["dnf".to_owned(), "install".to_owned(), "-y".to_owned()];
            proof {
                assert(views(head@) =~= seq!["dnf"@, "install"@, "-y"@]);
            }
            vec![command_with("sudo", head, pkgs)]
        },
        PackageManager::Yum => {
            let head = vec!["yum".to_owned(), "install".to_owned(), "-y".to_owned()];
            proof {
                assert(views(head@) =~= seq!["yum"@, "install"@, "-y"@]);
            }
            vec![command_with("sudo", head, pkgs)]
        },
        PackageManager::Pacman => {
            let head = vec!["pacman".to_owned(), "-S".to_owned(), "--noconfirm".to_owned()];
            proof {
                assert(views(head@) =~= seq!["pacman"@, "-S"@, "--noconfirm"@]);
            }
            vec![command_with("sudo", head, pkgs)]
        },
        PackageManager::Brew => {
            let head = vec!["install".to_owned()];
            proof {
                assert(views(head@) =~= seq!["install"@]);
            }
            vec![command_with("brew", head, pkgs)]
        },
    }
}

/// A release tag `v...` and the version after the `v`s.
pub open spec fn version_of(input: Seq<char>) -> Result<(Seq<char>, Seq<char>), Seq<char>> {
    if !(input.len() > 0 && input[0] == 'v') {
        Err("version must start with 'v' (e.g. v0.3.1)"@)
    } else if without_leading_v(input).len() == 0 {
        Err("invalid version"@)
    } else {
        Ok((input, without_leading_v(input)))
    }
}

/// `s` without the `v`s it starts with.
pub open spec fn without_leading_v(s: Seq<char>) -> Seq<char>
    decreases s.len(),
{
    if s.len() > 0 && s[0] == 'v' {
        without_leading_v(s.drop_first())
    } else {
        s
    }
}

/// The tag and the version it names (see `version_of`).
pub fn parse_version(input: &str) -> (r: Result<(String, String), String>)
    ensures
        match version_of(input@) {
            Ok((t, v)) => r matches Ok((a, b)) && a@ == t && b@ == v,
            Err(m) => r matches Err(e) && e@ == m,
        },
{
    let cs = chars_of(input);
    if !(cs.len() > 0 && cs[0] == 'v') {
        return Err("version must start with 'v' (e.g. v0.3.1)".to_owned());
    }
    let mut k: usize = 0;
    proof {
        assert(cs@.skip(0) =~= cs@);
    }
    while k < cs.len() && cs[k] == 'v'
        invariant
            k <= cs@.len(),
            cs@ == input@,
            without_leading_v(input@) == without_leading_v(cs@.skip(k as int)),
        decreases cs@.len() - k,
    {
        proof {
            assert(cs@.skip(k as int).drop_first() =~= cs@.skip(k + 1));
        }
        k = k + 1;
    }
    let ver = string_of_range(&cs, k, cs.len());
    proof {
        assert(ver@ =~= cs@.skip(k as int));
    }
    if ver.as_str().unicode_len() == 0 {
        return Err("invalid version".to_owned());
    }
    Ok((input.to_owned(), ver))
}

/// The version names a prerelease: in small letters it holds `alpha`,
/// `beta`, `rc`, `dev`, `pre` or `snapshot`.
pub open spec fn prerelease(version: Seq<char>) -> bool {
    let l = lowered(version);
    contains_text(l, "alpha"@) || contains_text(l, "beta"@) || contains_text(l, "rc"@)
        || contains_text(l, "dev"@) || contains_text(l, "pre"@) || contains_text(l, "snapshot"@)
}

/// Whether the version names a prerelease (see `prerelease`).
pub fn is_prerelease(version: &str) -> (r: bool)
    ensures
        r == prerelease(version@),
{
    let l = to_ascii_lowercase(version);
    let l = l.as_str();
    str_contains(l, "alpha") || str_contains(l, "beta") || str_contains(l, "rc") || str_contains(
        l,
        "dev",
    ) || str_contains(l, "pre") || str_contains(l, "snapshot")
}

/// `s` without the white space it starts with.
pub open spec fn trim_start(s: Seq<char>) -> Seq<char>
    decreases s.len(),
{
    if s.len() > 0 && crate::cache::is_space(s[0]) {
        trim_start(s.drop_first())
    } else {
        s
    }
}

fn trimmed_start(cs: &Vec<char>) -> (r: usize)
    ensures
        r <= cs@.len(),
        cs@.skip(r as int) == trim_start(cs@),
{
    let mut k: usize = 0;
    proof {
        assert(cs@.skip(0) =~= cs@);
    }
    while k < cs.len() && (('\u{9}' <= cs[k] && cs[k] <= '\u{d}') || cs[k] == ' ' || cs[k] == '\u{85}'
        || cs[k] == '\u{a0}' || cs[k] == '\u{1680}' || ('\u{2000}' <= cs[k] && cs[k] <= '\u{200a}')
        || cs[k] == '\u{2028}' || cs[k] == '\u{2029}' || cs[k] == '\u{202f}' || cs[k] == '\u{205f}'
        || cs[k] == '\u{3000}')
        invariant
            k <= cs@.len(),
            trim_start(cs@) == trim_start(cs@.skip(k as int)),
        decreases cs@.len() - k,
    {
        proof {
            assert(cs@.skip(k as int).drop_first() =~= cs@.skip(k + 1));
        }
        k = k + 1;
    }
    k
}

/// Each line of `lines` followed by a line feed, the first line that
/// `pick` chooses replaced by `replacement` (or, with `all`, every such
/// line).
pub open spec fn rewritten(lines: Seq<Seq<char>>, picked: spec_fn(Seq<char>) -> bool, replacement: Seq<char>, all: bool) -> (Seq<char>, bool)
    decreases lines.len(),
{
    if lines.len() == 0 {
        (Seq::empty(), false)
    } else {
        let (out, done) = rewritten(lines.drop_last(), picked, replacement, all);
        if (all || !done) && picked(lines.last()) {
            (out + replacement + seq!['\n'], true)
        } else {
            (out + lines.last() + seq!['\n'], done)
        }
    }
}

/// The manifest line of the version.
pub open spec fn version_line(l: Seq<char>) -> bool {
    starts_with(trim_start(l), "version ="@)
}

/// The build script line of the package version.
pub open spec fn pkgver_line(l: Seq<char>) -> bool {
    starts_with(l, "pkgver="@)
}

/// A manifest with its first `version =` line set to `version`; an error
/// where it has none.
pub fn set_manifest_version(original: &str, version: &str) -> (r: Result<String, ()>)
    ensures
        ({
            let (out, done) = rewritten(
                crate::visualize::lines_of(original@),
                |l: Seq<char>| version_line(l),
                "version = \""@ + version@ + "\""@,
                false,
            );
            match r {
                Ok(s) => done && s@ == out,
                Err(_) => !done,
            }
        }),
{
    let renderer = crate::visualize::CliRenderer::new(original);
    let lines = renderer.lines;
    let ghost lv = crate::visualize::line_views(lines@);
    let mut rep = "version = \"".to_owned();
    rep.append(version);
    rep.append("\"");
    let mut out = String::new();
    let mut done = false;
    let mut i: usize = 0;
    while i < lines.len()
        invariant
            i <= lines@.len(),
            lv == crate::visualize::line_views(lines@),
            (out@, done) == rewritten(lv.take(i as int), |l: Seq<char>| version_line(l), rep@, false),
        decreases lines@.len() - i,
    {
        proof {
            assert(lv.take(i + 1).drop_last() =~= lv.take(i as int));
            assert(lv[i as int] == lines@[i as int]@);
        }
        let cs = chars_of(lines[i].as_str());
        let k = trimmed_start(&cs);
        let rest = string_of_range(&cs, k, cs.len());
        proof {
            assert(rest@ =~= cs@.skip(k as int));
        }
        if !done && str_starts_with(rest.as_str(), "version =") {
            out.append(rep.as_str());
            done = true;
        } else {
            out.append(lines[i].as_str());
        }
        out.push('\n');
        i = i + 1;
    }
    proof {
        assert(lv.take(i as int) =~= lv);
    }
    if !done {
        return Err(());
    }
    Ok(out)
}

/// A build script with every `pkgver=` line set to `version`; an error
/// where it has none.
pub fn set_pkgver(original: &str, version: &str) -> (r: Result<String, ()>)
    ensures
        ({
            let (out, done) = rewritten(
                crate::visualize::lines_of(original@),
                |l: Seq<char>| pkgver_line(l),
                "pkgver="@ + version@,
                true,
            );
            match r {
                Ok(s) => done && s@ == out,
                Err(_) => !done,
            }
        }),
{
    let renderer = crate::visualize::CliRenderer::new(original);
    let lines = renderer.lines;
    let ghost lv = crate::visualize::line_views(lines@);
    let mut rep = "pkgver=".to_owned();
    rep.append(version);
    let mut out = String::new();
    let mut done = false;
    let mut i: usize = 0;
    while i < lines.len()
        invariant
            i <= lines@.len(),
            lv == crate::visualize::line_views(lines@),
            (out@, done) == rewritten(lv.take(i as int), |l: Seq<char>| pkgver_line(l), rep@, true),
        decreases lines@.len() - i,
    {
        proof {
            assert(lv.take(i + 1).drop_last() =~= lv.take(i as int));
            assert(lv[i as int] == lines@[i as int]@);
        }
        if str_starts_with(lines[i].as_str(), "pkgver=") {
            out.append(rep.as_str());
            done = true;
        } else {
            out.append(lines[i].as_str());
        }
        out.push('\n');
        i = i + 1;
    }
    proof {
        assert(lv.take(i as int) =~= lv);
    }
    if !done {
        return Err(());
    }
    Ok(out)
}

/// The summary section of a step: its name, its status, and its log where
/// there is one.
pub open spec fn step_text(name: Seq<char>, ok: bool, log: Option<Seq<char>>) -> Seq<char> {
    "## "@ + name + "\n"@ + "- status: "@ + (if ok {
        "ok"@
    } else {
        "failed"@
    }) + "\n"@ + (match log {
        Some(l) => "- log: "@ + l + "\n"@,
        None => Seq::empty(),
    }) + "\n"@
}

/// Appends the section of a step to the summary.
pub fn append_step(summary: &mut String, name: &str, ok: bool, log: Option<&str>)
    ensures
        final(summary)@ == old(summary)@ + step_text(
            name@,
            ok,
            match log {
                Some(l) => Some(l@),
                None => None,
            },
        ),
{
    summary.append("## ");
    summary.append(name);
    summary.append("\n");
    summary.append("- status: ");
    summary.append(if ok {
        "ok"
    } else {
        "failed"
    });
    summary.append("\n");
    if let Some(l) = log {
        summary.append("- log: ");
        summary.append(l);
        summary.append("\n");
    }
    summary.append("\n");
    proof {
        if log is None {
            assert(summary@ =~= old(summary)@ + step_text(name@, ok, None));
        }
    }
}

/// The position of the first dot of `s`.
pub open spec fn first_dot(s: Seq<char>) -> Option<int>
    decreases s.len(),
{
    if s.len() == 0 {
        None
    } else if s[0] == '.' {
        Some(0)
    } else {
        match first_dot(s.drop_first()) {
            Some(i) => Some(i + 1),
            None => None,
        }
    }
}

proof fn lemma_first_dot_at(s: Seq<char>, i: int)
    requires
        0 <= i <= s.len(),
        forall|j: int| 0 <= j < i ==> s[j] != '.',
        i == s.len() || s[i] == '.',
    ensures
        first_dot(s) == if i == s.len() {
            None::<int>
        } else {
            Some(i)
        },
    decreases s.len(),
{
    if s.len() > 0 && i > 0 {
        lemma_first_dot_at(s.drop_first(), i - 1);
    }
}

pub proof fn lemma_first_dot_bounds(s: Seq<char>)
    ensures
        first_dot(s) matches Some(i) ==> 0 <= i < s.len(),
    decreases s.len(),
{
    if s.len() > 0 {
        lemma_first_dot_bounds(s.drop_first());
    }
}

/// The pieces of `s` between dots, empty ones included.
pub open spec fn dot_pieces(s: Seq<char>) -> Seq<Seq<char>>
    decreases s.len(),
{
    match first_dot(s) {
        Some(i) => {
            proof {
                lemma_first_dot_bounds(s);
            }
            seq![s.take(i)] + dot_pieces(s.skip(i + 1))
        },
        None => seq![s],
    }
}

proof fn lemma_dot_pieces_len(s: Seq<char>)
    ensures
        dot_pieces(s).len() >= 1,
    decreases s.len(),
{
    lemma_first_dot_bounds(s);
    if let Some(i) = first_dot(s) {
        lemma_dot_pieces_len(s.skip(i + 1));
    }
}

/// `s` up to its first `-`.
pub open spec fn before_dash(s: Seq<char>) -> Seq<char>
    decreases s.len(),
{
    if s.len() == 0 {
        s
    } else if s[0] == '-' {
        Seq::empty()
    } else {
        seq![s[0]] + before_dash(s.drop_first())
    }
}

/// The version numbers `major.minor.patch` at the start of a version (a
/// prerelease part after `-` and any further numbers left out).
pub open spec fn semver(v: Seq<char>) -> Option<(nat, nat, nat)> {
    let p = dot_pieces(before_dash(v));
    if p.len() >= 3 {
        match (parsed_u64(p[0]), parsed_u64(p[1]), parsed_u64(p[2])) {
            (Some(a), Some(b), Some(c)) => Some((a, b, c)),
            _ => None,
        }
    } else {
        None
    }
}

fn parse_piece(cs: &Vec<char>, from: usize, to: usize) -> (r: Option<u64>)
    requires
        from <= to <= cs@.len(),
    ensures
        match parsed_u64(cs@.subrange(from as int, to as int)) {
            Some(v) => r == Some(v as u64),
            None => r is None,
        },
{
    let s = string_of_range(cs, from, to);
    crate::cache::parse_u64(s.as_str())
}

/// The end of the `k`th dot piece (from 0) of `cs[from..to]`, and where the
/// next one starts.
fn piece_end(cs: &Vec<char>, from: usize, to: usize) -> (r: usize)
    requires
        from <= to <= cs@.len(),
    ensures
        from <= r <= to,
        forall|j: int| from <= j < r ==> cs@[j] != '.',
        r < to ==> cs@[r as int] == '.',
{
    let mut k = from;
    while k < to && cs[k] != '.'
        invariant
            from <= k <= to <= cs@.len(),
            forall|j: int| from <= j < k ==> cs@[j] != '.',
        decreases to - k,
    {
        k = k + 1;
    }
    k
}

/// Version `current` is at least `required`, comparing major, minor and
/// patch numbers in turn; never where either does not read as a version.
pub open spec fn semver_ge(current: Seq<char>, required: Seq<char>) -> bool {
    match (semver(current), semver(required)) {
        (Some(c), Some(q)) => c.0 > q.0 || (c.0 == q.0 && (c.1 > q.1 || (c.1 == q.1 && c.2 >= q.2))),
        _ => false,
    }
}

/// Whether version `current` is at least `required` (see `semver_ge`).
pub fn compares_ge_semver(current: &str, required: &str) -> (r: bool)
    ensures
        r == semver_ge(current@, required@),
{
    let c = parse_semver(current);
    let q = parse_semver(required);
    match (c, q) {
        (Some(c), Some(q)) => c.0 > q.0 || (c.0 == q.0 && (c.1 > q.1 || (c.1 == q.1 && c.2 >= q.2))),
        _ => false,
    }
}

/// The version numbers at the start of `v` (see `semver`).
pub fn parse_semver(v: &str) -> (r: Option<(u64, u64, u64)>)
    ensures
        match semver(v@) {
            Some((a, b, c)) => r == Some((a as u64, b as u64, c as u64)),
            None => r is None,
        },
{
    let all = chars_of(v);
    let mut end: usize = 0;
    while end < all.len() && all[end] != '-'
        invariant
            end <= all@.len(),
            forall|j: int| 0 <= j < end ==> all@[j] != '-',
        decreases all@.len() - end,
    {
        end = end + 1;
    }
    proof {
        lemma_before_dash(all@, end as int);
    }
    let cs = all;
    let ghost b0 = cs@.take(end as int);
    let e0 = piece_end(&cs, 0, end);
    proof {
        lemma_first_dot_at(b0, e0 as int);
    }
    if e0 == end {
        proof {
            assert(dot_pieces(b0) == seq![b0]);
        }
        return None;
    }
    let ghost b1 = b0.skip(e0 + 1);
    let e1 = piece_end(&cs, e0 + 1, end);
    proof {
        assert forall|j: int| 0 <= j < e1 - e0 - 1 implies b1[j] != '.' by {
            assert(b1[j] == cs@[j + e0 + 1]);
        }
        if e1 < end {
            assert(b1[e1 - e0 - 1] == cs@[e1 as int]);
        }
        lemma_first_dot_at(b1, e1 - e0 - 1);
    }
    if e1 == end {
        proof {
            assert(dot_pieces(b1) == seq![b1]);
            assert(dot_pieces(b0).len() == 2);
        }
        return None;
    }
    let ghost b2 = b1.skip(e1 - e0);
    let e2 = piece_end(&cs, e1 + 1, end);
    proof {
        lemma_three_pieces(cs@, end as int, e0 as int, e1 as int, e2 as int);
    }
    let a = parse_piece(&cs, 0, e0);
    let bb = parse_piece(&cs, e0 + 1, e1);
    let c = parse_piece(&cs, e1 + 1, e2);
    match (a, bb, c) {
        (Some(a), Some(bb), Some(c)) => Some((a, bb, c)),
        _ => None,
    }
}

proof fn lemma_before_dash(s: Seq<char>, end: int)
    requires
        0 <= end <= s.len(),
        forall|j: int| 0 <= j < end ==> s[j] != '-',
        end == s.len() || s[end] == '-',
    ensures
        before_dash(s) == s.take(end),
    decreases s.len(),
{
    if s.len() > 0 {
        if end > 0 {
            lemma_before_dash(s.drop_first(), end - 1);
            assert(s.take(end) =~= seq![s[0]] + s.drop_first().take(end - 1));
        } else {
            assert(s.take(0) =~= Seq::<char>::empty());
        }
    } else {
        assert(s.take(end) =~= s);
    }
}

proof fn lemma_three_pieces(cs: Seq<char>, end: int, e0: int, e1: int, e2: int)
    requires
        0 <= e0 < e1 < end <= cs.len(),
        e1 < e2 <= end,
        forall|j: int| 0 <= j < e0 ==> cs[j] != '.',
        cs[e0] == '.',
        forall|j: int| e0 + 1 <= j < e1 ==> cs[j] != '.',
        cs[e1] == '.',
        forall|j: int| e1 + 1 <= j < e2 ==> cs[j] != '.',
        e2 < end ==> cs[e2] == '.',
    ensures
        dot_pieces(cs.take(end)).len() >= 3,
        dot_pieces(cs.take(end))[0] == cs.subrange(0, e0),
        dot_pieces(cs.take(end))[1] == cs.subrange(e0 + 1, e1),
        dot_pieces(cs.take(end))[2] == cs.subrange(e1 + 1, e2),
{
    let b0 = cs.take(end);
    let b1 = b0.skip(e0 + 1);
    let b2 = b1.skip(e1 - e0);
    lemma_first_dot_at(b0, e0);
    assert forall|j: int| 0 <= j < e1 - e0 - 1 implies b1[j] != '.' by {
        assert(b1[j] == cs[j + e0 + 1]);
    }
    assert(b1[e1 - e0 - 1] == cs[e1]);
    lemma_first_dot_at(b1, e1 - e0 - 1);
    assert forall|j: int| 0 <= j < e2 - e1 - 1 implies b2[j] != '.' by {
        assert(b2[j] == cs[j + e1 + 1]);
    }
    if e2 < end {
        assert(b2[e2 - e1 - 1] == cs[e2]);
    }
    lemma_first_dot_at(b2, e2 - e1 - 1);
    lemma_dot_pieces_len(b2);
    let p2 = dot_pieces(b2);
    let p1 = dot_pieces(b1);
    let p0 = dot_pieces(b0);
    assert(p0 == seq![b0.take(e0)] + p1);
    assert(p1 == seq![b1.take(e1 - e0 - 1)] + p2);
    if e2 < end {
        assert(p2 == seq![b2.take(e2 - e1 - 1)] + dot_pieces(b2.skip(e2 - e1)));
        assert(p2[0] =~= cs.subrange(e1 + 1, e2));
    } else {
        assert(p2 == seq![b2]);
        assert(p2[0] =~= cs.subrange(e1 + 1, e2));
    }
    assert(p0[0] =~= cs.subrange(0, e0));
    assert(p0[1] == p1[0]);
    assert(p1[0] =~= cs.subrange(e0 + 1, e1));
    assert(p0[2] == p1[1]);
    assert(p1[1] == p2[0]);
}

/// Which of the tools that the checks use are at hand.
#[derive(Clone, Copy, PartialEq, Eq, Debug, Structural)]
pub struct ToolStatus {
    pub cargo_deny: bool,
    pub cargo_shear: bool,
    pub cargo_nextest: bool,
    pub miri: bool,
    pub valgrind: bool,
    pub instruments: bool,
}

/// Which checks are off by default on a host.
#[derive(Clone, Copy, PartialEq, Eq, Debug, Structural)]
pub struct CheckDefaults {
    pub no_deny: bool,
    pub no_shear: bool,
    pub no_miri: bool,
    pub no_valgrind: bool,
    pub no_instruments: bool,
}

/// The checks that are off on `host`: none on Linux; valgrind and
/// instruments on macOS; those and miri elsewhere.
pub fn host_defaults(host: OsKind) -> (r: CheckDefaults)
    ensures
        !r.no_deny && !r.no_shear,
        r.no_miri == !(host == OsKind::Linux || host == OsKind::Macos),
        r.no_valgrind == (host != OsKind::Linux),
        r.no_instruments == (host != OsKind::Linux),
{
    match host {
        OsKind::Linux => CheckDefaults { no_deny: false, no_shear: false, no_miri: false, no_valgrind: false, no_instruments: false },
        OsKind::Macos => CheckDefaults { no_deny: false, no_shear: false, no_miri: false, no_valgrind: true, no_instruments: true },
        _ => CheckDefaults { no_deny: false, no_shear: false, no_miri: true, no_valgrind: true, no_instruments: true },
    }
}

pub open spec fn yes_no(b: bool) -> Seq<char> {
    if b {
        "yes"@
    } else {
        "no"@
    }
}

pub open spec fn on_off(off: bool) -> Seq<char> {
    if off {
        "off"@
    } else {
        "on"@
    }
}

pub open spec fn os_name(host: OsKind) -> Seq<char> {
    match host {
        OsKind::Linux => "Linux"@,
        OsKind::Macos => "Macos"@,
        OsKind::Windows => "Windows"@,
        OsKind::Other => "Other"@,
    }
}

/// The first word of what `rustup show active-toolchain` printed, or
/// `unknown`.
pub open spec fn toolchain_word(output: Seq<char>) -> Seq<char> {
    let ws = crate::toolchain::words_of(output);
    if ws.len() > 0 {
        ws[0]
    } else {
        "unknown"@
    }
}

/// The lines of the tool summary for `host`.
pub open spec fn tool_status_text(host: OsKind, ci: bool, t: ToolStatus, toolchain_output: Seq<char>) -> Seq<Seq<char>> {
    let d = if host == OsKind::Linux {
        CheckDefaults { no_deny: false, no_shear: false, no_miri: false, no_valgrind: false, no_instruments: false }
    } else if host == OsKind::Macos {
        CheckDefaults { no_deny: false, no_shear: false, no_miri: false, no_valgrind: true, no_instruments: true }
    } else {
        CheckDefaults { no_deny: false, no_shear: false, no_miri: true, no_valgrind: true, no_instruments: true }
    };
    let tc = toolchain_word(toolchain_output);
    seq!["Tool Availability Summary"@, "================================"@, Seq::empty(),
        "platform: "@ + os_name(host), "ci: "@ + (if ci { "true"@ } else { "false"@ }), Seq::empty(),
        "Security Tools:"@,
        "  cargo-deny:      "@ + yes_no(t.cargo_deny),
        "  cargo-shear:     "@ + yes_no(t.cargo_shear),
        "  cargo-nextest:   "@ + yes_no(t.cargo_nextest),
        "  miri component:  "@ + yes_no(t.miri)]
    + (if host == OsKind::Linux { seq!["  valgrind:        "@ + yes_no(t.valgrind)] } else { Seq::empty() })
    + (if host == OsKind::Macos { seq!["  instruments:     "@ + yes_no(t.instruments && host == OsKind::Macos)] } else { Seq::empty() })
    + seq![Seq::empty(), "Advanced Features:"@,
        (if contains_text(tc, "nightly"@) { "  nightly toolchain: yes ("@ } else { "  nightly toolchain: no ("@ }) + tc + ")"@,
        Seq::empty(), "Defaults (after auto-config):"@,
        "  deny:        "@ + on_off(d.no_deny),
        "  shear:       "@ + on_off(d.no_shear),
        "  miri:        "@ + on_off(d.no_miri),
        "  valgrind:    "@ + on_off(d.no_valgrind),
        "  instruments: "@ + on_off(d.no_instruments)]
}

fn yes_no_str(b: bool) -> (r: &'static str)
    ensures
        r@ == yes_no(b),
{
    if b {
        "yes"
    } else {
        "no"
    }
}

fn on_off_str(off: bool) -> (r: &'static str)
    ensures
        r@ == on_off(off),
{
    if off {
        "off"
    } else {
        "on"
    }
}

fn line_with(head: &str, tail: &str) -> (r: String)
    ensures
        r@ == head@ + tail@,
{
    let mut s = head.to_owned();
    s.append(tail);
    s
}

/// The lines that summarize which tools are at hand and which checks run
/// by default (see `tool_status_text`).
#[verifier::spinoff_prover]
#[verifier::rlimit(30)]
pub fn tool_status_lines(host: OsKind, ci: bool, t: ToolStatus, toolchain_output: &str) -> (r: Vec<String>)
    ensures
        r@.map_values(|l: String| l@) == tool_status_text(host, ci, t, toolchain_output@),
{
    let d = host_defaults(host);
    let words = crate::toolchain::split_whitespace(toolchain_output);
    let tc = if words.len() > 0 {
        words[0].clone()
    } else {
        "unknown".to_owned()
    };
    proof {
        if words@.len() > 0 {
            assert(words@.map_values(|w: String| w@)[0] == words@[0]@);
        }
    }
    let os = match host {
        OsKind::Linux => "Linux",
        OsKind::Macos => "Macos",
        OsKind::Windows => "Windows",
        OsKind::Other => "Other",
    };
    let mut r: Vec<String> = Vec::new();
    r.push("Tool Availability Summary".to_owned());
    r.push("================================".to_owned());
    r.push(String::new());
    r.push(line_with("platform: ", os));
    r.push(line_with("ci: ", if ci { "true" } else { "false" }));
    r.push(String::new());
    r.push("Security Tools:".to_owned());
    r.push(line_with("  cargo-deny:      ", yes_no_str(t.cargo_deny)));
    r.push(line_with("  cargo-shear:     ", yes_no_str(t.cargo_shear)));
    r.push(line_with("  cargo-nextest:   ", yes_no_str(t.cargo_nextest)));
    r.push(line_with("  miri component:  ", yes_no_str(t.miri)));
    let ghost first = r@;
    if host == OsKind::Linux {
        r.push(line_with("  valgrind:        ", yes_no_str(t.valgrind)));
    }
    let ghost second = r@;
    if host == OsKind::Macos {
        r.push(line_with("  instruments:     ", yes_no_str(t.instruments)));
    }
    let ghost third = r@;
    r.push(String::new());
    r.push("Advanced Features:".to_owned());
    let mut nl = if str_contains(tc.as_str(), "nightly") {
        "  nightly toolchain: yes (".to_owned()
    } else {
        "  nightly toolchain: no (".to_owned()
    };
    nl.append(tc.as_str());
    nl.append(")");
    r.push(nl);
    r.push(String::new());
    r.push("Defaults (after auto-config):".to_owned());
    r.push(line_with("  deny:        ", on_off_str(d.no_deny)));
    r.push(line_with("  shear:       ", on_off_str(d.no_shear)));
    r.push(line_with("  miri:        ", on_off_str(d.no_miri)));
    r.push(line_with("  valgrind:    ", on_off_str(d.no_valgrind)));
    r.push(line_with("  instruments: ", on_off_str(d.no_instruments)));
    proof {
        reveal_strlit("true");
        reveal_strlit("false");
        assert(r@.map_values(|l: String| l@) =~= tool_status_text(host, ci, t, toolchain_output@));
    }
    r
}

/// `a / d` rounded to the nearest integer, ties to the even one.
pub open spec fn round_half_even(a: nat, d: nat) -> nat {
    let q = a / d;
    let r = a % d;
    if 2 * r > d || (2 * r == d && q % 2 == 1) {
        q + 1
    } else {
        q
    }
}

/// Two to the power `e`.
pub open spec fn two_to(e: nat) -> nat
    decreases e,
{
    if e == 0 {
        1
    } else {
        2 * two_to((e - 1) as nat)
    }
}

/// The number of low bits of `n` beyond the 53 significant bits that a
/// 64-bit float keeps.
pub open spec fn float_shift(n: nat) -> nat
    decreases n,
{
    if n < 0x20_0000_0000_0000 {
        0
    } else {
        1 + float_shift(n / 2)
    }
}

/// The value of `n` as a 64-bit float: `n` rounded to its 53 most
/// significant bits, ties to even.
pub open spec fn as_float(n: nat) -> nat {
    round_half_even(n, two_to(float_shift(n))) * two_to(float_shift(n))
}

/// `bytes` for people to read: below 1024 as a count of bytes, else in the
/// largest of KiB, MiB and GiB that it reaches, as the float division prints
/// with two decimals (ties to even).
pub open spec fn format_bytes_text(bytes: u64) -> Seq<char> {
    if bytes < 1024 {
        decimal(bytes as nat) + "B"@
    } else {
        let d: nat = if bytes >= 0x4000_0000 {
            0x4000_0000
        } else if bytes >= 0x10_0000 {
            0x10_0000
        } else {
            1024
        };
        let unit = if bytes >= 0x4000_0000 {
            "GiB"@
        } else if bytes >= 0x10_0000 {
            "MiB"@
        } else {
            "KiB"@
        };
        let c = round_half_even(as_float(bytes as nat) * 100, d);
        decimal(c / 100) + "."@ + (if c % 100 < 10 {
            "0"@
        } else {
            Seq::empty()
        }) + decimal(c % 100) + unit
    }
}

fn round_div_even(a: u128, d: u128) -> (q: u128)
    requires
        d > 0,
        a <= 0x1_0000_0000_0000_0000_0000_0000,
    ensures
        q == round_half_even(a as nat, d as nat),
        q <= a / d + 1,
{
    let q = a / d;
    let r = a % d;
    if r > d - r || (r == d - r && q % 2 == 1) {
        q + 1
    } else {
        q
    }
}

/// The value of `n` as a 64-bit float (see `as_float`).
fn float_value(n: u64) -> (v: u128)
    ensures
        v == as_float(n as nat),
        v <= 0x2_0000_0000_0000_0000,
{
    let mut m: u64 = n;
    let mut d: u128 = 1;
    let ghost mut s: nat = 0;
    while m >= 0x20_0000_0000_0000
        invariant
            d > 0,
            d <= 0x1000,
            m as nat == n as nat / d as nat,
            d as nat == two_to(s),
            float_shift(n as nat) == s + float_shift(m as nat),
        decreases m,
    {
        proof {
            vstd::arithmetic::div_mod::lemma_fundamental_div_mod(n as int, d as int);
            assert(d * 0x20_0000_0000_0000 <= n) by (nonlinear_arith)
                requires
                    m >= 0x20_0000_0000_0000,
                    n as int == d as int * m as int + (n as int) % (d as int),
                    (n as int) % (d as int) >= 0,
                    d > 0,
            ;
            vstd::arithmetic::div_mod::lemma_div_denominator(n as int, d as int, 2);
        }
        m = m / 2;
        d = d * 2;
        proof {
            s = s + 1;
        }
    }
    let q = round_div_even(n as u128, d);
    proof {
        assert(q <= 0x20_0000_0000_0000);
        assert(q * d <= 0x2_0000_0000_0000_0000) by (nonlinear_arith)
            requires
                q <= 0x20_0000_0000_0000,
                d <= 0x1000,
        ;
    }
    q * d
}

/// `bytes` for people to read (see `format_bytes_text`).
pub fn format_bytes(bytes: u64) -> (r: String)
    ensures
        r@ == format_bytes_text(bytes),
{
    let mut s = String::new();
    if bytes < 1024 {
        push_decimal(&mut s, bytes);
        s.append("B");
        return s;
    }
    let d: u128 = if bytes >= 0x4000_0000 {
        0x4000_0000
    } else if bytes >= 0x10_0000 {
        0x10_0000
    } else {
        1024
    };
    let unit = if bytes >= 0x4000_0000 {
        "GiB"
    } else if bytes >= 0x10_0000 {
        "MiB"
    } else {
        "KiB"
    };
    let v = float_value(bytes);
    let c = round_div_even(v * 100, d);
    proof {
        vstd::arithmetic::div_mod::lemma_div_is_ordered_by_denominator((v * 100) as int, 1024, d as int);
        vstd::arithmetic::div_mod::lemma_div_is_ordered((v * 100) as int, 0x2_0000_0000_0000_0000int * 100, 1024);
    }
    push_decimal(&mut s, (c / 100) as u64);
    s.append(".");
    let rest = c % 100;
    if rest < 10 {
        s.append("0");
    }
    push_decimal(&mut s, rest as u64);
    s.append(unit);
    s
}

/// The options of the security checks, as given on the command line.
#[derive(Clone, Copy, PartialEq, Eq, Debug, Structural)]
pub struct SecurityOptions {
    pub check: bool,
    pub install: bool,
    pub ci: bool,
    pub no_auto_install: bool,
    pub no_miri: bool,
    pub no_valgrind: bool,
    pub force_valgrind: bool,
    pub no_deny: bool,
    pub no_shear: bool,
    pub no_instruments: bool,
    pub force_instruments: bool,
}

/// What the security checks do: whether they only report which tools are
/// at hand, whether they run in CI mode and may install missing tools, and
/// which checks run.
#[derive(Clone, Copy, PartialEq, Eq, Debug, Structural)]
pub struct SecurityPlan {
    pub status_only: bool,
    pub ci_mode: bool,
    pub auto_install: bool,
    pub deny: bool,
    pub shear: bool,
    pub miri: bool,
    pub instruments: bool,
    pub valgrind: bool,
}

/// The plan for options `o` on `host`, where `env_ci` tells whether the
/// environment is a CI: none where `--install` meets `--no-auto-install`.
/// Off Linux, valgrind and Instruments are off unless forced; off Linux and
/// macOS, Miri is off too; forcing wins over `--no-*`; valgrind runs only
/// on Linux unless forced.
pub open spec fn security_plan_of(o: SecurityOptions, host: OsKind, env_ci: bool) -> Option<SecurityPlan> {
    let ci_mode = o.ci || env_ci;
    let auto_install = !o.no_auto_install && (o.install || ci_mode);
    if o.install && !auto_install {
        None
    } else {
        let no_valgrind = !o.force_valgrind && (o.no_valgrind || host != OsKind::Linux);
        let no_instruments = !o.force_instruments && (o.no_instruments || host != OsKind::Linux);
        let no_miri = o.no_miri || !(host == OsKind::Linux || host == OsKind::Macos);
        Some(
            SecurityPlan {
                status_only: o.check,
                ci_mode,
                auto_install,
                deny: !o.no_deny,
                shear: !o.no_shear,
                miri: !no_miri,
                instruments: !no_instruments,
                valgrind: !no_valgrind && (o.force_valgrind || host == OsKind::Linux),
            },
        )
    }
}

/// Resolves the options of the security checks into what they do (see
/// `security_plan_of`); an error where `--install` meets
/// `--no-auto-install`.
pub fn plan_security(o: SecurityOptions, host: OsKind, env_ci: bool) -> (r: Result<SecurityPlan, String>)
    ensures
        r is Ok <==> security_plan_of(o, host, env_ci) is Some,
        r matches Ok(p) ==> security_plan_of(o, host, env_ci) == Some(p),
        r matches Err(e) ==> e@ == "--install conflicts with --no-auto-install"@,
{
    let ci_mode = o.ci || env_ci;
    let auto_install = !o.no_auto_install && (o.install || ci_mode);
    if o.install && !auto_install {
        return Err("--install conflicts with --no-auto-install".to_owned());
    }
    let mut no_valgrind = o.no_valgrind;
    let mut no_instruments = o.no_instruments;
    let mut no_miri = o.no_miri;
    match host {
        OsKind::Linux => {},
        OsKind::Macos => {
            if !o.force_valgrind {
                no_valgrind = true;
            }
            if !o.force_instruments {
                no_instruments = true;
            }
        },
        _ => {
            if !o.force_valgrind {
                no_valgrind = true;
            }
            if !o.force_instruments {
                no_instruments = true;
            }
            no_miri = true;
        },
    }
    if o.force_valgrind {
        no_valgrind = false;
    }
    if o.force_instruments {
        no_instruments = false;
    }
    Ok(
        SecurityPlan {
            status_only: o.check,
            ci_mode,
            auto_install,
            deny: !o.no_deny,
            shear: !o.no_shear,
            miri: !no_miri,
            instruments: !no_instruments,
            valgrind: !no_valgrind && (o.force_valgrind || host == OsKind::Linux),
        },
    )
}

/// What the checks that ran gave: whether each succeeded, and whether
/// Instruments works at all.
#[derive(Clone, Copy, PartialEq, Eq, Debug, Structural)]
pub struct SecurityResults {
    pub deny_ok: bool,
    pub shear_ok: bool,
    pub miri_ok: bool,
    pub instruments_available: bool,
    pub instruments_ok: bool,
    pub build_ok: bool,
    pub valgrind_ok: bool,
}

/// The section of the `cargo deny` step.
pub open spec fn deny_part(plan: SecurityPlan, r: SecurityResults) -> Seq<char> {
    if plan.deny {
        step_text("cargo deny"@, r.deny_ok, Some("security-logs/cargo-deny.log"@))
    } else {
        step_text("cargo deny"@, true, Some("skipped"@))
    }
}

/// The section of the `cargo shear` step.
pub open spec fn shear_part(plan: SecurityPlan, r: SecurityResults) -> Seq<char> {
    if plan.shear {
        step_text("cargo shear"@, r.shear_ok, Some("security-logs/cargo-shear.log"@))
    } else {
        step_text("cargo shear"@, true, Some("skipped"@))
    }
}

/// The sections of the Miri steps.
pub open spec fn miri_part(plan: SecurityPlan, r: SecurityResults) -> Seq<char> {
    if plan.miri {
        step_text("miri unit tests"@, r.miri_ok, Some("security-logs/miri_unit_tests.log"@)) + step_text(
            "miri rustowl run"@,
            true,
            Some("skipped (removed; proc-spawn makes it unreliable)"@),
        )
    } else {
        step_text("miri"@, true, Some("skipped"@))
    }
}

/// The section of the Instruments step.
pub open spec fn instruments_part(plan: SecurityPlan, host: OsKind, r: SecurityResults) -> Seq<char> {
    if !plan.instruments {
        step_text("instruments"@, true, Some("skipped"@))
    } else if host != OsKind::Macos {
        step_text("instruments"@, true, Some("skipped (non-macOS)"@))
    } else if !r.instruments_available {
        step_text("instruments"@, false, Some("missing or not functional; try Xcode setup"@))
    } else {
        step_text("instruments"@, r.instruments_ok, Some("security-logs/instruments.log"@))
    }
}

/// The sections of the valgrind steps.
pub open spec fn valgrind_part(plan: SecurityPlan, r: SecurityResults) -> Seq<char> {
    if plan.valgrind {
        step_text("build rustowl (release, system allocator)"@, r.build_ok, Some("security-logs/build-rustowl.log"@))
            + step_text("valgrind"@, r.valgrind_ok, Some("security-logs/valgrind.log"@))
    } else {
        step_text("valgrind"@, true, Some("skipped"@))
    }
}

/// The summary of the security checks under `plan` on `host`: a heading,
/// then a section for each step, run or skipped.
pub open spec fn security_summary_text(plan: SecurityPlan, host: OsKind, r: SecurityResults) -> Seq<char> {
    "# Security Testing Summary\n"@ + "\n"@ + "Generated by `cargo xtask security`.\n"@ + "\n"@ + deny_part(plan, r)
        + shear_part(plan, r) + step_text("cargo nextest"@, true, Some("available (used by miri)"@)) + miri_part(plan, r)
        + instruments_part(plan, host, r) + valgrind_part(plan, r)
}

/// The security checks pass when every check that ran passed; Instruments
/// on macOS must also work at all; valgrind's own result does not count,
/// only that the binary it checks was built.
pub open spec fn security_passed(plan: SecurityPlan, host: OsKind, r: SecurityResults) -> bool {
    &&& (plan.deny ==> r.deny_ok)
    &&& (plan.shear ==> r.shear_ok)
    &&& (plan.miri ==> r.miri_ok)
    &&& (plan.instruments && host == OsKind::Macos ==> r.instruments_available && r.instruments_ok)
    &&& (plan.valgrind ==> r.build_ok)
}

fn deny_section(plan: SecurityPlan, r: SecurityResults) -> (s: String)
    ensures
        s@ == deny_part(plan, r),
{
    let mut s = String::new();
    if plan.deny {
        append_step(&mut s, "cargo deny", r.deny_ok, Some("security-logs/cargo-deny.log"));
    } else {
        append_step(&mut s, "cargo deny", true, Some("skipped"));
    }
    s
}

fn shear_section(plan: SecurityPlan, r: SecurityResults) -> (s: String)
    ensures
        s@ == shear_part(plan, r),
{
    let mut s = String::new();
    if plan.shear {
        append_step(&mut s, "cargo shear", r.shear_ok, Some("security-logs/cargo-shear.log"));
    } else {
        append_step(&mut s, "cargo shear", true, Some("skipped"));
    }
    s
}

fn miri_section(plan: SecurityPlan, r: SecurityResults) -> (s: String)
    ensures
        s@ == miri_part(plan, r),
{
    let mut s = String::new();
    if plan.miri {
        append_step(&mut s, "miri unit tests", r.miri_ok, Some("security-logs/miri_unit_tests.log"));
        append_step(&mut s, "miri rustowl run", true, Some("skipped (removed; proc-spawn makes it unreliable)"));
    } else {
        append_step(&mut s, "miri", true, Some("skipped"));
    }
    s
}

fn instruments_section(plan: SecurityPlan, host: OsKind, r: SecurityResults) -> (s: String)
    ensures
        s@ == instruments_part(plan, host, r),
{
    let mut s = String::new();
    if !plan.instruments {
        append_step(&mut s, "instruments", true, Some("skipped"));
    } else if host != OsKind::Macos {
        append_step(&mut s, "instruments", true, Some("skipped (non-macOS)"));
    } else if !r.instruments_available {
        append_step(&mut s, "instruments", false, Some("missing or not functional; try Xcode setup"));
    } else {
        append_step(&mut s, "instruments", r.instruments_ok, Some("security-logs/instruments.log"));
    }
    s
}

fn valgrind_section(plan: SecurityPlan, r: SecurityResults) -> (s: String)
    ensures
        s@ == valgrind_part(plan, r),
{
    let mut s = String::new();
    if plan.valgrind {
        append_step(&mut s, "build rustowl (release, system allocator)", r.build_ok, Some("security-logs/build-rustowl.log"));
        append_step(&mut s, "valgrind", r.valgrind_ok, Some("security-logs/valgrind.log"));
    } else {
        append_step(&mut s, "valgrind", true, Some("skipped"));
    }
    s
}

/// The summary of the security checks and whether they passed.
pub fn security_summary(plan: SecurityPlan, host: OsKind, r: SecurityResults) -> (out: (String, bool))
    ensures
        out.0@ == security_summary_text(plan, host, r),
        out.1 == security_passed(plan, host, r),
{
    let mut summary = String::new();
    summary.append("# Security Testing Summary\n");
    summary.append("\n");
    summary.append("Generated by `cargo xtask security`.\n");
    summary.append("\n");
    let part = deny_section(plan, r);
    summary.append(part.as_str());
    let part = shear_section(plan, r);
    summary.append(part.as_str());
    append_step(&mut summary, "cargo nextest", true, Some("available (used by miri)"));
    let part = miri_section(plan, r);
    summary.append(part.as_str());
    let part = instruments_section(plan, host, r);
    summary.append(part.as_str());
    let part = valgrind_section(plan, r);
    summary.append(part.as_str());
    let ok = (!plan.deny || r.deny_ok) && (!plan.shear || r.shear_ok) && (!plan.miri || r.miri_ok) && (!plan.instruments
        || host != OsKind::Macos || (r.instruments_available && r.instruments_ok)) && (!plan.valgrind || r.build_ok);
    proof {
        assert(summary@ =~= security_summary_text(plan, host, r));
    }
    (summary, ok)
}

/// The arguments of the valgrind run: memcheck with full leak checks, the
/// suppressions file where there is one, the release binary (`.exe` where
/// that is the one built), then a check of the dummy package where it is
/// there, else `--help`.
pub open spec fn valgrind_args_of(exe: bool, suppressions: bool, dummy_package: bool) -> Seq<Seq<char>> {
    seq!["--tool=memcheck"@, "--leak-check=full"@, "--show-leak-kinds=all"@, "--track-origins=yes"@] + (if suppressions {
        seq!["--suppressions=.valgrind-suppressions"@]
    } else {
        Seq::empty()
    }) + seq![
        if exe {
            "./target/release/rustowl.exe"@
        } else {
            "./target/release/rustowl"@
        },
    ] + (if dummy_package {
        seq!["check"@, "./perf-tests/dummy-package"@]
    } else {
        seq!["--help"@]
    })
}

/// The arguments of the valgrind run (see `valgrind_args_of`).
pub fn valgrind_args(exe: bool, suppressions: bool, dummy_package: bool) -> (r: Vec<String>)
    ensures
        r@.map_values(|a: String| a@) == valgrind_args_of(exe, suppressions, dummy_package),
{
    let mut r: Vec<String> = Vec::new();
    r.push("--tool=memcheck".to_owned());
    r.push("--leak-check=full".to_owned());
    r.push("--show-leak-kinds=all".to_owned());
    r.push("--track-origins=yes".to_owned());
    if suppressions {
        r.push("--suppressions=.valgrind-suppressions".to_owned());
    }
    if exe {
        r.push("./target/release/rustowl.exe".to_owned());
    } else {
        r.push("./target/release/rustowl".to_owned());
    }
    if dummy_package {
        r.push("check".to_owned());
        r.push("./perf-tests/dummy-package".to_owned());
    } else {
        r.push("--help".to_owned());
    }
    proof {
        assert(r@.map_values(|a: String| a@) =~= valgrind_args_of(exe, suppressions, dummy_package));
    }
    r
}

/// Every version that reads as one is at least itself.
pub proof fn law_semver_ge_reflexive(v: Seq<char>)
    requires
        semver(v) is Some,
    ensures
        semver_ge(v, v),
{
}

/// Being at least another version is transitive.
pub proof fn law_semver_ge_transitive(a: Seq<char>, b: Seq<char>, c: Seq<char>)
    requires
        semver_ge(a, b),
        semver_ge(b, c),
    ensures
        semver_ge(a, c),
{
}

} // verus!
