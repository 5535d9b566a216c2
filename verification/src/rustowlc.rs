//! How the compiler wrapper reads its command line: which arguments reach
//! the compiler, and whether a run is analyzed or only passed through.

use crate::maps::{crates_insert, files_insert};
use crate::models::{Crate, File, Function, Workspace};
use crate::text::chars_of;
use vstd::prelude::*;

verus! {

/// `part` occurs in `s` at position `i`.
pub open spec fn occurs_at(s: Seq<char>, part: Seq<char>, i: int) -> bool {
    0 <= i && i + part.len() <= s.len() && s.subrange(i, i + part.len()) == part
}

/// `part` occurs in `s`.
pub open spec fn contains_text(s: Seq<char>, part: Seq<char>) -> bool {
    exists|i: int| #[trigger] occurs_at(s, part, i)
}

/// `pre` begins `s`.
pub open spec fn starts_with(s: Seq<char>, pre: Seq<char>) -> bool {
    pre.len() <= s.len() && s.take(pre.len() as int) == pre
}

fn matches_at(s: &Vec<char>, part: &Vec<char>, i: usize) -> (r: bool)
    requires
        i + part@.len() <= s@.len(),
    ensures
        r == (s@.subrange(i as int, i + part@.len()) == part@),
{
    let n = s.len();
    let mut k: usize = 0;
    while k < part.len()
        invariant
            n == s@.len(),
            i + part@.len() <= s@.len(),
            k <= part@.len(),
            forall|j: int| 0 <= j < k ==> s@[i + j] == part@[j],
        decreases part@.len() - k,
    {
        if s[i + k] != part[k] {
            proof {
                assert(s@.subrange(i as int, i + part@.len())[k as int] != part@[k as int]);
            }
            return false;
        }
        k = k + 1;
    }
    proof {
        assert(s@.subrange(i as int, i + part@.len()) =~= part@);
    }
    true
}

/// Whether `part` occurs in `s`.
pub fn str_contains(s: &str, part: &str) -> (r: bool)
    ensures
        r == contains_text(s@, part@),
{
    let a = chars_of(s);
    let b = chars_of(part);
    if b.len() > a.len() {
        return false;
    }
    if b.len() == 0 {
        assert(a@.subrange(0, 0) =~= b@);
        assert(occurs_at(a@, b@, 0));
        return true;
    }
    let n = a.len();
    let last = a.len() - b.len();
    let mut i: usize = 0;
    while i <= last
        invariant
            b@.len() >= 1,
            n == a@.len(),
            last == a@.len() - b@.len(),
            a@ == s@,
            b@ == part@,
            b@.len() <= a@.len(),
            i <= a@.len() - b@.len() + 1,
            forall|j: int| 0 <= j < i ==> !#[trigger] occurs_at(a@, b@, j),
        decreases last + 1 - i,
    {
        if matches_at(&a, &b, i) {
            assert(occurs_at(a@, b@, i as int));
            return true;
        }
        i = i + 1;
    }
    proof {
        assert forall|j: int| !#[trigger] occurs_at(a@, b@, j) by {
            if occurs_at(a@, b@, j) {
                assert(j < i);
            }
        }
    }
    false
}

/// Whether `s` begins with `pre`.
pub fn str_starts_with(s: &str, pre: &str) -> (r: bool)
    ensures
        r == starts_with(s@, pre@),
{
    let a = chars_of(s);
    let b = chars_of(pre);
    if b.len() > a.len() {
        return false;
    }
    let r = matches_at(&a, &b, 0);
    proof {
        assert(a@.subrange(0, b@.len() as int) =~= a@.take(b@.len() as int));
    }
    r
}

/// An argument that makes the compiler only answer a question (its version,
/// or what it prints): such runs pass through.
pub open spec fn passthrough(arg: Seq<char>) -> bool {
    arg == "-vV"@ || arg == "--version"@ || starts_with(arg, "--print"@)
}

/// Whether argument `arg` makes the run pass through to the compiler.
pub fn is_passthrough_arg(arg: &str) -> (r: bool)
    ensures
        r == passthrough(arg@),
{
    let a = arg.to_owned();
    a == "-vV".to_owned() || a == "--version".to_owned() || str_starts_with(arg, "--print")
}

/// The arguments that reach the compiler: where cargo put the path of the
/// real compiler second (it names `rustc`), that goes; then, where the
/// program name is repeated, the repetition goes.
pub open spec fn compiler_args(args: Seq<Seq<char>>) -> Seq<Seq<char>> {
    let a = if args.len() > 1 && contains_text(args[1], "rustc"@) {
        args.remove(1)
    } else {
        args
    };
    if a.len() > 1 && a[0] == a[1] {
        a.remove(1)
    } else {
        a
    }
}

/// The characters of each string of `s`.
pub open spec fn arg_views(s: Seq<String>) -> Seq<Seq<char>> {
    s.map_values(|a: String| a@)
}

/// Drops from `args` what the compiler must not see (see `compiler_args`).
pub fn prepare_args(args: Vec<String>) -> (r: Vec<String>)
    ensures
        arg_views(r@) == compiler_args(arg_views(args@)),
{
    let ghost v0 = arg_views(args@);
    let mut args = args;
    if args.len() > 1 && str_contains(args[1].as_str(), "rustc") {
        let ghost before = args@;
        args.remove(1);
        proof {
            assert(arg_views(args@) =~= arg_views(before).remove(1));
        }
    }
    let ghost v1 = arg_views(args@);
    if args.len() > 1 && args[0] == args[1] {
        let ghost before = args@;
        args.remove(1);
        proof {
            assert(arg_views(args@) =~= arg_views(before).remove(1));
        }
    }
    args
}

/// The value given after the first `--crate-name`, where there is one.
pub open spec fn crate_name_arg(args: Seq<Seq<char>>) -> Option<Seq<char>> {
    if exists|i: int| 0 <= i < args.len() && args[i] == "--crate-name"@ {
        let i = choose|i: int|
            0 <= i < args.len() && args[i] == "--crate-name"@ && forall|j: int|
                0 <= j < i ==> args[j] != "--crate-name"@;
        if i + 1 < args.len() {
            Some(args[i + 1])
        } else {
            None
        }
    } else {
        None
    }
}

/// The crate name that the arguments give.
pub fn crate_name(args: &Vec<String>) -> (r: Option<String>)
    ensures
        match r {
            Some(n) => crate_name_arg(arg_views(args@)) == Some(n@),
            None => crate_name_arg(arg_views(args@)) is None,
        },
{
    let ghost v = arg_views(args@);
    let key = "--crate-name".to_owned();
    let mut i: usize = 0;
    while i < args.len()
        invariant
            i <= args@.len(),
            v == arg_views(args@),
            key@ == "--crate-name"@,
            forall|j: int| 0 <= j < i ==> v[j] != "--crate-name"@,
        decreases args@.len() - i,
    {
        if args[i] == key {
            proof {
                assert(v[i as int] == "--crate-name"@);
                let c = choose|c: int|
                    0 <= c < v.len() && v[c] == "--crate-name"@ && forall|j: int|
                        0 <= j < c ==> v[j] != "--crate-name"@;
                if c < i {
                    assert(v[c] != "--crate-name"@);
                }
                if c > i {
                    assert(v[i as int] != "--crate-name"@);
                }
            }
            if i + 1 < args.len() {
                return Some(args[i + 1].clone());
            }
            return None;
        }
        i = i + 1;
    }
    None
}

/// How a run of the compiler goes.
#[derive(Clone, Copy, PartialEq, Eq, Debug, Structural)]
pub enum CompilerMode {
    /// Only answer the compiler's question.
    Passthrough,
    /// Compile and analyze.
    Analyze,
    /// Compile without analysis.
    Plain,
}

/// Whether a crate of this name is analyzed: all but cargo's probe crate
/// `___`; with no name (a single file), it is.
pub open spec fn analyzes(crate_name: Option<Seq<char>>) -> bool {
    match crate_name {
        Some(n) => n != "___"@,
        None => true,
    }
}

/// Whether the crate named `crate_name` is analyzed (see `analyzes`).
pub fn should_analyze(crate_name: Option<&str>) -> (r: bool)
    ensures
        r == analyzes(match crate_name {
            Some(n) => Some(n@),
            None => None,
        }),
{
    match crate_name {
        Some(n) => n.to_owned() != "___".to_owned(),
        None => true,
    }
}

/// How the compiler runs with arguments `args` (as given to the compiler):
/// through, where some argument asks a question; analyzed or not by the
/// crate name otherwise.
pub fn compiler_mode(args: &Vec<String>) -> (r: CompilerMode)
    ensures
        r == if exists|i: int| 0 <= i < args@.len() && passthrough(#[trigger] args@[i]@) {
            CompilerMode::Passthrough
        } else if analyzes(crate_name_arg(arg_views(args@))) {
            CompilerMode::Analyze
        } else {
            CompilerMode::Plain
        },
{
    let name = crate_name(args);
    let mut i: usize = 0;
    while i < args.len()
        invariant
            i <= args@.len(),
            forall|j: int| 0 <= j < i ==> !passthrough(#[trigger] args@[j]@),
        decreases args@.len() - i,
    {
        if is_passthrough_arg(args[i].as_str()) {
            return CompilerMode::Passthrough;
        }
        i = i + 1;
    }
    let analyze = match &name {
        Some(n) => should_analyze(Some(n.as_str())),
        None => should_analyze(None),
    };
    if analyze {
        CompilerMode::Analyze
    } else {
        CompilerMode::Plain
    }
}

/// The workspace that reports one analyzed function: crate `crate_name`
/// with file `file_name` holding `function`.
pub fn single_result(crate_name: String, file_name: String, function: Function) -> (r: Workspace)
    ensures
        r.entries().len() == 1,
        r.entries()[0].0 == crate_name,
        r.entries()[0].1.entries().len() == 1,
        r.entries()[0].1.entries()[0].0 == file_name,
        r.entries()[0].1.entries()[0].1.items@ == seq![function],
{
    let file = File { items: vec![function] };
    let mut krate = Crate::new();
    files_insert(&mut krate.0, file_name, file);
    let mut ws = Workspace::new();
    crates_insert(&mut ws.0, crate_name, krate);
    ws
}

} // verus!
