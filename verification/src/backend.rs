//! The decisions of the language server: the analysis status, the key of
//! a new analysis process, and the decorations shown at the cursor.

use crate::decoration::{CalcDecos, Deco, DecoView, SelectLocal, dviews, overlap_inv, overlap_result};
use crate::models::{Crate, File, FnLocal, Loc};
use crate::utils::{passes, visit_all};
use crate::visualize::{file_match, file_paths, find_file};
use vstd::prelude::*;

verus! {

/// A request to analyze the workspace again.
#[derive(Clone, Copy, Debug)]
pub struct AnalyzeRequest {}

/// The answer to an analysis request.
#[derive(Clone, Copy, Debug)]
pub struct AnalyzeResponse {}

/// The outcome of a command-line check.
#[derive(Clone, Copy, Debug)]
pub struct CheckReport {
    pub ok: bool,
    pub checked_targets: usize,
    pub total_targets: Option<usize>,
    /// How long the check took, in milliseconds.
    pub duration_ms: u64,
}

/// Where the analysis stands.
#[derive(Clone, Copy, PartialEq, Eq, Debug, Structural)]
pub enum AnalysisStatus {
    Analyzing,
    Finished,
    Error,
}

/// The status once all analysis processes are done: an error stays an
/// error; otherwise it is an error where no crate results came back, and
/// finished where some did.
pub fn final_status(status: AnalysisStatus, analyzed_files: usize) -> (r: AnalysisStatus)
    ensures
        r == (if status == AnalysisStatus::Error || analyzed_files == 0 {
            AnalysisStatus::Error
        } else {
            AnalysisStatus::Finished
        }),
{
    if status != AnalysisStatus::Error {
        if analyzed_files == 0 {
            AnalysisStatus::Error
        } else {
            AnalysisStatus::Finished
        }
    } else {
        status
    }
}

/// The key of a new analysis process: one past the last key in use, or 1.
pub fn next_token_key(last: Option<usize>) -> (r: usize)
    requires
        last matches Some(k) ==> k < usize::MAX,
    ensures
        r == match last {
            Some(k) => k + 1,
            None => 1,
        },
{
    match last {
        Some(k) => k + 1,
        None => 1,
    }
}

/// The status reported with the decorations at the cursor: while the
/// analysis is finished, the reason there are none; otherwise the status.
pub fn cursor_status(status: AnalysisStatus, decos_error: Option<AnalysisStatus>) -> (r: AnalysisStatus)
    ensures
        r == match decos_error {
            Some(e) => if status == AnalysisStatus::Finished {
                e
            } else {
                status
            },
            None => status,
        },
{
    match decos_error {
        Some(e) => if status == AnalysisStatus::Finished {
            e
        } else {
            status
        },
        None => status,
    }
}

/// The decorations at position `position` of the file with path
/// `file_path`: the local under the cursor is selected over all functions
/// of the file, its decorations gathered and passed over for overlaps. Where
/// there are none, the error says why: `Error` where the file is unknown or
/// empty (or the overlap pass could outgrow a `usize`), `Finished` where it
/// has functions but nothing is selected or decorated.
pub fn decos(analyzed: Option<&Crate>, file_path: &str, position: Loc) -> (r: Result<Vec<Deco>, AnalysisStatus>)
    ensures
        analyzed is None ==> r == Err::<Vec<Deco>, AnalysisStatus>(AnalysisStatus::Error),
        analyzed matches Some(c) ==> match file_match(file_paths(c.entries()), file_path@) {
            None => r == Err::<Vec<Deco>, AnalysisStatus>(AnalysisStatus::Error),
            Some(i) => {
                let file = c.entries()[i].1;
                let err = if file.items@.len() > 0 {
                    AnalysisStatus::Finished
                } else {
                    AnalysisStatus::Error
                };
                exists|s0: SelectLocal, s1: SelectLocal|
                    {
                        &&& s0.is_initial(position)
                        &&& passes(file.items@, s0, s1)
                        &&& s1.selected is None ==> r == Err::<Vec<Deco>, AnalysisStatus>(err)
                        &&& s1.selected matches Some(sel) ==> exists|c0: CalcDecos, c1: CalcDecos|
                            {
                                &&& c0.locals@ == seq![sel.1]
                                &&& c0.decorations@.len() == 0
                                &&& c0.current_fn_id == 0
                                &&& passes(file.items@, c0, c1)
                                &&& match r {
                                    Ok(ds) => ds@.len() > 0 && overlap_inv(ds@, c1.decorations@) && overlap_result(
                                        c1.decorations@,
                                        dviews(ds@),
                                    ),
                                    Err(e) => e == err && overlap_result(c1.decorations@, Seq::empty()),
                                }
                            }
                    }
            },
        },
{
    let analyzed = match analyzed {
        Some(a) => a,
        None => {
            return Err(AnalysisStatus::Error);
        },
    };
    let file = match find_file(analyzed, file_path) {
        Some(f) => f,
        None => {
            return Err(AnalysisStatus::Error);
        },
    };
    let error = if file.items.len() > 0 {
        AnalysisStatus::Finished
    } else {
        AnalysisStatus::Error
    };
    let mut selected = SelectLocal::new(position);
    visit_all(&file.items, &mut selected);
    let local = match selected.selected() {
        Some(l) => l,
        None => {
            return Err(error);
        },
    };
    let mut calc = CalcDecos::new([local]);
    proof {
        assert(calc.locals@ =~= seq![local]);
    }
    visit_all(&file.items, &mut calc);
    calc.handle_overlapping();
    let decos = calc.decorations();
    if decos.len() == 0 {
        proof {
            assert(dviews(decos@) =~= Seq::<DecoView>::empty());
        }
        Err(error)
    } else {
        Ok(decos)
    }
}

} // verus!
