//! Driving an analysis run: the cargo invocation, the number of units cargo
//! is expected to build, the messages read back, and the analysis results
//! gathered from them.

use crate::maps::{crates_into_vec, files_len};
use crate::models::{Crate, CrateView, Workspace, merge_files};
use crate::text::{decimal, push_decimal};
use vstd::prelude::*;

verus! {

/// The target of a cargo `compiler-artifact` message.
#[derive(Clone, Debug)]
pub struct CargoCheckMessageTarget {
    pub name: String,
}

/// A message of `cargo check --message-format=json` that the analysis reads.
#[derive(Clone, Debug)]
pub enum CargoCheckMessage {
    CompilerArtifact { target: CargoCheckMessageTarget },
    BuildFinished {},
}

/// What an analysis run reports as it goes.
#[derive(Clone, Debug)]
pub enum AnalyzerEvent {
    /// Cargo has checked another unit, the `package_index`th of an expected
    /// `package_count`.
    CrateChecked { package: String, package_index: usize, package_count: usize },
    /// The analysis of some crates is done.
    Analyzed(Workspace),
}

/// The characters of each string of `s`.
pub open spec fn views(s: Seq<String>) -> Seq<Seq<char>> {
    s.map_values(|a: String| a@)
}

/// The arguments of the checking cargo run.
pub open spec fn check_args_of(all_targets: bool, all_features: bool) -> Seq<Seq<char>> {
    seq!["check"@, "--workspace"@] + (if all_targets {
        seq!["--all-targets"@]
    } else {
        Seq::empty()
    }) + (if all_features {
        seq!["--all-features"@]
    } else {
        Seq::empty()
    }) + seq!["--keep-going"@, "--message-format=json"@]
}

/// The arguments of `cargo check` for the analysis of a package.
pub fn check_args(all_targets: bool, all_features: bool) -> (r: Vec<String>)
    ensures
        views(r@) == check_args_of(all_targets, all_features),
{
    let mut args: Vec<String> = Vec::new();
    args.push("check".to_owned());
    args.push("--workspace".to_owned());
    if all_targets {
        args.push("--all-targets".to_owned());
    }
    if all_features {
        args.push("--all-features".to_owned());
    }
    args.push("--keep-going".to_owned());
    args.push("--message-format=json".to_owned());
    assert(views(args@) =~= check_args_of(all_targets, all_features));
    args
}

/// The kinds of a cargo target that decide whether `cargo check` builds it.
#[derive(Clone, Copy, PartialEq, Eq, Debug, Structural)]
pub struct TargetKind {
    pub is_lib: bool,
    pub is_proc_macro: bool,
    pub is_custom_build: bool,
    pub is_bin: bool,
    pub is_test: bool,
    pub is_bench: bool,
    pub is_example: bool,
}

/// A package's targets, and whether it belongs to the workspace.
#[derive(Clone, Debug)]
pub struct PackageTargets {
    pub is_workspace_member: bool,
    pub targets: Vec<TargetKind>,
}

/// Whether `cargo check` builds target `t` of a package: libraries,
/// procedural macros and build scripts always; binaries of workspace members;
/// with all targets, also their tests, benches and examples.
pub open spec fn builds(t: TargetKind, member: bool, all_targets: bool) -> bool {
    t.is_lib || t.is_proc_macro || t.is_custom_build || (member && t.is_bin) || (all_targets
        && member && (t.is_test || t.is_bench || t.is_example))
}

/// The number of targets of `ts` that get built.
pub open spec fn built_count(ts: Seq<TargetKind>, member: bool, all_targets: bool) -> nat
    decreases ts.len(),
{
    if ts.len() == 0 {
        0
    } else {
        built_count(ts.drop_last(), member, all_targets) + (if builds(
            ts.last(),
            member,
            all_targets,
        ) {
            1nat
        } else {
            0nat
        })
    }
}

/// The number of targets of all packages that get built.
pub open spec fn units(ps: Seq<PackageTargets>, all_targets: bool) -> nat
    decreases ps.len(),
{
    if ps.len() == 0 {
        0
    } else {
        units(ps.drop_last(), all_targets) + built_count(
            ps.last().targets@,
            ps.last().is_workspace_member,
            all_targets,
        )
    }
}

/// The number of targets of all packages.
pub open spec fn target_total(ps: Seq<PackageTargets>) -> nat
    decreases ps.len(),
{
    if ps.len() == 0 {
        0
    } else {
        target_total(ps.drop_last()) + ps.last().targets@.len()
    }
}

proof fn lemma_built_count_le(ts: Seq<TargetKind>, member: bool, all_targets: bool)
    ensures
        built_count(ts, member, all_targets) <= ts.len(),
    decreases ts.len(),
{
    if ts.len() > 0 {
        lemma_built_count_le(ts.drop_last(), member, all_targets);
    }
}

proof fn lemma_units_le(ps: Seq<PackageTargets>, all_targets: bool)
    ensures
        units(ps, all_targets) <= target_total(ps),
    decreases ps.len(),
{
    if ps.len() > 0 {
        lemma_units_le(ps.drop_last(), all_targets);
        lemma_built_count_le(ps.last().targets@, ps.last().is_workspace_member, all_targets);
    }
}

proof fn lemma_target_total_prefix(ps: Seq<PackageTargets>, i: int)
    requires
        0 <= i <= ps.len(),
    ensures
        target_total(ps.take(i)) <= target_total(ps),
    decreases ps.len() - i,
{
    if i < ps.len() {
        lemma_target_total_prefix(ps, i + 1);
        assert(ps.take(i + 1).drop_last() =~= ps.take(i));
    } else {
        assert(ps.take(i) =~= ps);
    }
}

/// The number of units `cargo check` is expected to build, at least one.
pub fn expected_units(packages: &Vec<PackageTargets>, all_targets: bool) -> (r: usize)
    requires
        target_total(packages@) <= usize::MAX,
    ensures
        r == (if units(packages@, all_targets) == 0 {
            1
        } else {
            units(packages@, all_targets)
        }),
{
    let mut total: usize = 0;
    let mut i: usize = 0;
    while i < packages.len()
        invariant
            i <= packages@.len(),
            target_total(packages@) <= usize::MAX,
            total == units(packages@.take(i as int), all_targets),
        decreases packages@.len() - i,
    {
        let p = &packages[i];
        let mut count: usize = 0;
        let mut k: usize = 0;
        proof {
            lemma_target_total_prefix(packages@, i + 1);
            assert(packages@.take(i + 1).drop_last() =~= packages@.take(i as int));
            lemma_units_le(packages@.take(i + 1), all_targets);
        }
        while k < p.targets.len()
            invariant
                k <= p.targets@.len(),
                count == built_count(p.targets@.take(k as int), p.is_workspace_member, all_targets),
                count <= k,
            decreases p.targets@.len() - k,
        {
            let t = p.targets[k];
            let member = p.is_workspace_member;
            let always = t.is_lib || t.is_proc_macro || t.is_custom_build || (member && t.is_bin);
            let extra = all_targets && member && (t.is_test || t.is_bench || t.is_example);
            proof {
                assert(p.targets@.take(k + 1).drop_last() =~= p.targets@.take(k as int));
            }
            if always || extra {
                count = count + 1;
            }
            k = k + 1;
        }
        proof {
            assert(p.targets@.take(k as int) =~= p.targets@);
        }
        total = total + count;
        i = i + 1;
    }
    proof {
        assert(packages@.take(i as int) =~= packages@);
    }
    if total == 0 {
        1
    } else {
        total
    }
}

/// `s` without the line feeds and carriage returns at its end.
pub open spec fn without_line_end(s: Seq<u8>) -> Seq<u8>
    decreases s.len(),
{
    if s.len() > 0 && (s.last() == 10 || s.last() == 13) {
        without_line_end(s.drop_last())
    } else {
        s
    }
}

/// Takes the line feeds and carriage returns off the end of a line.
pub fn trim_line_end(buf: &mut Vec<u8>)
    ensures
        final(buf)@ == without_line_end(old(buf)@),
    decreases old(buf)@.len(),
{
    let n = buf.len();
    if n > 0 && (buf[n - 1] == 10 || buf[n - 1] == 13) {
        buf.pop();
        assert(old(buf)@.drop_last() =~= buf@);
        trim_line_end(buf);
    }
}

/// What reading a cargo message does to the count of checked units: a
/// `compiler-artifact` message counts one more (saturating) and reports its
/// target as checked.
pub fn on_cargo_message(checked: usize, msg: CargoCheckMessage, package_count: usize) -> (r: (
    usize,
    Option<AnalyzerEvent>,
))
    ensures
        match msg {
            CargoCheckMessage::CompilerArtifact { target } => {
                let n = if checked < usize::MAX {
                    checked + 1
                } else {
                    checked as int
                };
                &&& r.0 == n
                &&& r.1 matches Some(AnalyzerEvent::CrateChecked { package, package_index, package_count: c })
                    && package@ == target.name@ && package_index == n && c == package_count
            },
            CargoCheckMessage::BuildFinished {  } => r.0 == checked && r.1 is None,
        },
{
    match msg {
        CargoCheckMessage::CompilerArtifact { target } => {
            let n = if checked < usize::MAX {
                checked + 1
            } else {
                checked
            };
            (n, Some(AnalyzerEvent::CrateChecked { package: target.name, package_index: n, package_count }))
        },
        CargoCheckMessage::BuildFinished {  } => (checked, None),
    }
}

/// The crates `cs` merged one after the other into what `acc` holds.
pub open spec fn absorbed(acc: Option<CrateView>, cs: Seq<CrateView>) -> Option<CrateView>
    decreases cs.len(),
{
    if cs.len() == 0 {
        acc
    } else {
        match absorbed(acc, cs.drop_last()) {
            Some(a) => Some(merge_files(a, cs.last())),
            None => Some(cs.last()),
        }
    }
}

pub open spec fn opt_view(c: Option<Crate>) -> Option<CrateView> {
    match c {
        Some(k) => Some(k@),
        None => None,
    }
}

/// Merges the crates of `ws`, in order, into the analysis results gathered
/// so far; the first crate starts them where there were none.
pub fn absorb_workspace(analyzed: &mut Option<Crate>, ws: Workspace)
    ensures
        opt_view(*final(analyzed)) == absorbed(
            opt_view(*old(analyzed)),
            ws@.map_values(|e: (Seq<char>, CrateView)| e.1),
        ),
{
    let Workspace(crates) = ws;
    let crates = crates_into_vec(crates);
    let ghost cs = crates@.map_values(|e: (String, Crate)| e.1@);
    proof {
        assert(ws@.map_values(|e: (Seq<char>, CrateView)| e.1) =~= cs);
    }
    let mut crates = crates;
    let ghost c0 = crates@;
    let mut i: usize = 0;
    let ghost start = opt_view(*analyzed);
    proof {
        assert(cs.take(0) =~= Seq::<CrateView>::empty());
        assert(crates@ =~= c0.skip(0));
    }
    let n = crates.len();
    while crates.len() > 0
        invariant
            n == c0.len(),
            i <= c0.len(),
            crates@ == c0.skip(i as int),
            cs == c0.map_values(|e: (String, Crate)| e.1@),
            opt_view(*analyzed) == absorbed(start, cs.take(i as int)),
        decreases crates@.len(),
    {
        let (_, krate) = crates.remove(0);
        proof {
            assert(c0.skip(i as int)[0] == c0[i as int]);
            assert(cs.take(i + 1).drop_last() =~= cs.take(i as int));
            assert(crates@ =~= c0.skip(i + 1));
        }
        match analyzed {
            Some(a) => {
                a.merge(krate);
            },
            None => {
                *analyzed = Some(krate);
            },
        }
        i = i + 1;
    }
    proof {
        assert(cs.take(i as int) =~= cs);
    }
}

/// The state of a checking run: the units checked so far, the number
/// expected, and the results gathered.
pub struct CheckProgress {
    pub checked_targets: usize,
    pub total_targets: Option<usize>,
    pub analyzed: Option<Crate>,
}

impl CheckProgress {
    pub fn new() -> (r: Self)
        ensures
            r.checked_targets == 0,
            r.total_targets is None,
            r.analyzed is None,
    {
        CheckProgress { checked_targets: 0, total_targets: None, analyzed: None }
    }

    /// Takes in an event of the run.
    pub fn on_event(&mut self, event: AnalyzerEvent)
        ensures
            match event {
                AnalyzerEvent::CrateChecked { package_index, package_count, .. } => {
                    &&& final(self).checked_targets == package_index
                    &&& final(self).total_targets == Some(package_count)
                    &&& opt_view(final(self).analyzed) == opt_view(old(self).analyzed)
                },
                AnalyzerEvent::Analyzed(ws) => {
                    &&& final(self).checked_targets == old(self).checked_targets
                    &&& final(self).total_targets == old(self).total_targets
                    &&& opt_view(final(self).analyzed) == absorbed(
                        opt_view(old(self).analyzed),
                        ws@.map_values(|e: (Seq<char>, CrateView)| e.1),
                    )
                },
            },
    {
        match event {
            AnalyzerEvent::CrateChecked { package_index, package_count, .. } => {
                self.checked_targets = package_index;
                self.total_targets = Some(package_count);
            },
            AnalyzerEvent::Analyzed(ws) => {
                absorb_workspace(&mut self.analyzed, ws);
            },
        }
    }

    /// The check succeeded: some crate's results hold a file.
    pub fn is_ok(&self) -> (r: bool)
        ensures
            r == (self.analyzed matches Some(c) && c@.len() > 0),
    {
        match &self.analyzed {
            Some(c) => files_len(&c.0) > 0,
            None => false,
        }
    }
}

/// The progress shown while checking: `Checking {package} ({i+1}/{n})` and
/// the share done in percent, at most 100.
pub fn progress_report(package: &str, package_index: usize, package_count: usize) -> (r: (
    String,
    u32,
))
    requires
        package_count > 0,
        package_index * 100 <= usize::MAX,
    ensures
        r.0@ == "Checking "@ + package@ + " ("@ + decimal(
            (if package_index < usize::MAX {
                package_index + 1
            } else {
                package_index as int
            }) as nat,
        ) + "/"@ + decimal(package_count as nat) + ")"@,
        r.1 == (if package_index as int * 100 / package_count as int >= 100 {
            100
        } else {
            package_index as int * 100 / package_count as int
        }),
{
    let q = package_index * 100 / package_count;
    let pct: u32 = if q >= 100 {
        100
    } else {
        q as u32
    };
    let mut msg = "Checking ".to_owned();
    msg.append(package);
    msg.append(" (");
    let next = if package_index < usize::MAX {
        package_index + 1
    } else {
        package_index
    };
    push_decimal(&mut msg, next as u64);
    msg.append("/");
    push_decimal(&mut msg, package_count as u64);
    msg.append(")");
    (msg, pct)
}

} // verus!
