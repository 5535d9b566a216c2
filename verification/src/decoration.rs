//! The decorations that show a variable's lifetime, borrows, moves and calls,
//! and the choice of the variable under the cursor.

use crate::models::{FnLocal, Function, Loc, MirDecl, MirRval, MirStatement, MirTerminator, Range};
use crate::models::{lemma_range_inv, without_cr};
use crate::utils::{
    common_range, common_ranges, covers, index_to_line_char, line_col, max, min, overlaps, range_len, total_size, eliminated_ranges, exclude_ranges, exclusion_of, is_super_range,
    same_cover, separated, strictly_contains, twice_cover, MirVisitor,
};
use vstd::prelude::*;
use vstd::string::StringExecFns;

verus! {

/// One underline in the editor, of one of seven kinds, with its hover text;
/// `overlapped` marks a part that other decorations cover too.
#[derive(PartialEq, Eq, Clone, Debug)]
pub enum Deco<R = Range> {
    Lifetime { local: FnLocal, range: R, hover_text: String, overlapped: bool },
    ImmBorrow { local: FnLocal, range: R, hover_text: String, overlapped: bool },
    MutBorrow { local: FnLocal, range: R, hover_text: String, overlapped: bool },
    Move { local: FnLocal, range: R, hover_text: String, overlapped: bool },
    Call { local: FnLocal, range: R, hover_text: String, overlapped: bool },
    SharedMut { local: FnLocal, range: R, hover_text: String, overlapped: bool },
    Outlive { local: FnLocal, range: R, hover_text: String, overlapped: bool },
}

impl<R> Deco<R> {
    /// The kind of the decoration, numbered in the order in which kinds are
    /// drawn: lifetime, immutable borrow, mutable borrow, move, call, shared
    /// and mutable borrow, outlive.
    pub open spec fn kind(self) -> int {
        match self {
            Deco::Lifetime { .. } => 0,
            Deco::ImmBorrow { .. } => 1,
            Deco::MutBorrow { .. } => 2,
            Deco::Move { .. } => 3,
            Deco::Call { .. } => 4,
            Deco::SharedMut { .. } => 5,
            Deco::Outlive { .. } => 6,
        }
    }

    pub open spec fn local_of(self) -> FnLocal {
        match self {
            Deco::Lifetime { local, .. } => local,
            Deco::ImmBorrow { local, .. } => local,
            Deco::MutBorrow { local, .. } => local,
            Deco::Move { local, .. } => local,
            Deco::Call { local, .. } => local,
            Deco::SharedMut { local, .. } => local,
            Deco::Outlive { local, .. } => local,
        }
    }

    pub open spec fn range_of(self) -> R {
        match self {
            Deco::Lifetime { range, .. } => range,
            Deco::ImmBorrow { range, .. } => range,
            Deco::MutBorrow { range, .. } => range,
            Deco::Move { range, .. } => range,
            Deco::Call { range, .. } => range,
            Deco::SharedMut { range, .. } => range,
            Deco::Outlive { range, .. } => range,
        }
    }

    pub open spec fn text_of(self) -> Seq<char> {
        match self {
            Deco::Lifetime { hover_text, .. } => hover_text@,
            Deco::ImmBorrow { hover_text, .. } => hover_text@,
            Deco::MutBorrow { hover_text, .. } => hover_text@,
            Deco::Move { hover_text, .. } => hover_text@,
            Deco::Call { hover_text, .. } => hover_text@,
            Deco::SharedMut { hover_text, .. } => hover_text@,
            Deco::Outlive { hover_text, .. } => hover_text@,
        }
    }

    pub open spec fn overlapped_of(self) -> bool {
        match self {
            Deco::Lifetime { overlapped, .. } => overlapped,
            Deco::ImmBorrow { overlapped, .. } => overlapped,
            Deco::MutBorrow { overlapped, .. } => overlapped,
            Deco::Move { overlapped, .. } => overlapped,
            Deco::Call { overlapped, .. } => overlapped,
            Deco::SharedMut { overlapped, .. } => overlapped,
            Deco::Outlive { overlapped, .. } => overlapped,
        }
    }

    /// The two decorations agree in every field.
    pub open spec fn same_as(self, other: Self) -> bool {
        &&& self.kind() == other.kind()
        &&& self.local_of() == other.local_of()
        &&& self.range_of() == other.range_of()
        &&& self.text_of() == other.text_of()
        &&& self.overlapped_of() == other.overlapped_of()
    }

    /// The decoration has the given kind and fields.
    pub open spec fn is(
        self,
        kind: int,
        local: FnLocal,
        range: R,
        text: Seq<char>,
        overlapped: bool,
    ) -> bool {
        &&& self.kind() == kind
        &&& self.local_of() == local
        &&& self.range_of() == range
        &&& self.text_of() == text
        &&& self.overlapped_of() == overlapped
    }

    /// A decoration of kind `kind` (as numbered by `kind()`) with the given
    /// fields; a number past the last kind gives an outlive decoration.
    pub fn with_kind(kind: u8, local: FnLocal, range: R, hover_text: String, overlapped: bool) -> (r:
        Self)
        ensures
            r.is(if kind < 6 { kind as int } else { 6 }, local, range, hover_text@, overlapped),
    {
        match kind {
            0 => Deco::Lifetime { local, range, hover_text, overlapped },
            1 => Deco::ImmBorrow { local, range, hover_text, overlapped },
            2 => Deco::MutBorrow { local, range, hover_text, overlapped },
            3 => Deco::Move { local, range, hover_text, overlapped },
            4 => Deco::Call { local, range, hover_text, overlapped },
            5 => Deco::SharedMut { local, range, hover_text, overlapped },
            _ => Deco::Outlive { local, range, hover_text, overlapped },
        }
    }

    /// The fields of the decoration, its range and hover text by reference.
    pub fn parts(&self) -> (r: (u8, FnLocal, &R, &String, bool))
        ensures
            r.0 == self.kind(),
            r.1 == self.local_of(),
            *r.2 == self.range_of(),
            r.3@ == self.text_of(),
            r.4 == self.overlapped_of(),
    {
        match self {
            Deco::Lifetime { local, range, hover_text, overlapped } => (
                0,
                *local,
                range,
                hover_text,
                *overlapped,
            ),
            Deco::ImmBorrow { local, range, hover_text, overlapped } => (
                1,
                *local,
                range,
                hover_text,
                *overlapped,
            ),
            Deco::MutBorrow { local, range, hover_text, overlapped } => (
                2,
                *local,
                range,
                hover_text,
                *overlapped,
            ),
            Deco::Move { local, range, hover_text, overlapped } => (
                3,
                *local,
                range,
                hover_text,
                *overlapped,
            ),
            Deco::Call { local, range, hover_text, overlapped } => (
                4,
                *local,
                range,
                hover_text,
                *overlapped,
            ),
            Deco::SharedMut { local, range, hover_text, overlapped } => (
                5,
                *local,
                range,
                hover_text,
                *overlapped,
            ),
            Deco::Outlive { local, range, hover_text, overlapped } => (
                6,
                *local,
                range,
                hover_text,
                *overlapped,
            ),
        }
    }
}

/// A position in a document as the editor counts it.
#[derive(Clone, Copy, PartialEq, Eq, Debug, Structural)]
pub struct LspPosition {
    pub line: u32,
    pub character: u32,
}

/// A range in a document as the editor counts it.
#[derive(Clone, Copy, PartialEq, Eq, Debug, Structural)]
pub struct LspRange {
    pub start: LspPosition,
    pub end: LspPosition,
}

/// The editor position of character position `idx` of `source`: carriage
/// returns are left out, and a position past the end gives the end.
pub open spec fn position_at(source: Seq<char>, idx: int) -> LspPosition {
    let t = without_cr(source);
    let k = if idx < t.len() {
        idx
    } else {
        t.len() as int
    };
    LspPosition { line: line_col(t.take(k)).0 as u32, character: line_col(t.take(k)).1 as u32 }
}

impl Deco<Range> {
    /// The decoration with its range given as editor positions in `source`.
    pub fn to_lsp_range(&self, source: &str) -> (r: Deco<LspRange>)
        ensures
            r.kind() == self.kind(),
            r.local_of() == self.local_of(),
            r.text_of() == self.text_of(),
            r.overlapped_of() == self.overlapped_of(),
            r.range_of().start == position_at(source@, self.range_of().lo()),
            r.range_of().end == position_at(source@, self.range_of().hi()),
    {
        let (kind, local, range, text, overlapped) = self.parts();
        let start = index_to_line_char(source, range.from());
        let end = index_to_line_char(source, range.until());
        let range = LspRange {
            start: LspPosition { line: start.0, character: start.1 },
            end: LspPosition { line: end.0, character: end.1 },
        };
        Deco::with_kind(kind, local, range, text.clone(), overlapped)
    }
}

/// Whether string `s` reads `lit`.
fn str_is(s: &String, lit: &str) -> (r: bool)
    ensures
        r == (s@ == lit@),
{
    *s == lit.to_owned()
}

/// Whether `v` holds `local`.
pub fn holds_local(v: &Vec<FnLocal>, local: FnLocal) -> (r: bool)
    ensures
        r == v@.contains(local),
{
    let mut i: usize = 0;
    while i < v.len()
        invariant
            i <= v@.len(),
            forall|k: int| 0 <= k < i ==> v@[k] != local,
        decreases v@.len() - i,
    {
        if v[i] == local {
            assert(v@[i as int] == local);
            return true;
        }
        i = i + 1;
    }
    false
}

/// The locals that the compiler makes for async code, which the cursor never
/// selects: those of the resume type or of the future's type, and the task
/// context and awaitee variables.
pub open spec fn is_async_decl(decl: MirDecl) -> bool {
    ||| decl.ty_of() == "std::future::ResumeTy"@
    ||| decl.ty_of() == "impl std::future::Future<Output = ()>"@
    ||| (decl matches MirDecl::User { name, .. } && (name@ == "_task_context"@ || name@
        == "__awaitee"@))
}

/// Why a local was selected: the cursor is on its declaration, on a move or
/// a borrow of it, or on a call whose result it holds.
#[derive(Clone, Copy, Debug, PartialEq, Eq, Structural)]
pub enum SelectReason {
    Var,
    Move,
    Borrow,
    Call,
}

/// The selection after offering `local` with `range` for `reason`, with the
/// cursor at `pos`: a candidate whose range holds the cursor is taken when
/// nothing is selected yet; a declaration replaces any selection with a
/// larger range; nothing replaces a declaration but a narrower declaration;
/// a move or a borrow replaces a wider selection; a call replaces a wider
/// call.
pub open spec fn select_rule(
    old: Option<(SelectReason, FnLocal, Range)>,
    reason: SelectReason,
    local: FnLocal,
    range: Range,
    pos: Loc,
    candidates: Seq<FnLocal>,
) -> Option<(SelectReason, FnLocal, Range)> {
    if !candidates.contains(local) || !(range.lo() <= pos.0 <= range.hi()) {
        old
    } else {
        match old {
            None => Some((reason, local, range)),
            Some((old_reason, _, old_range)) => {
                let narrower = range.hi() - range.lo() < old_range.hi() - old_range.lo();
                if reason == SelectReason::Var {
                    if narrower {
                        Some((reason, local, range))
                    } else {
                        old
                    }
                } else if old_reason == SelectReason::Var {
                    old
                } else if reason == SelectReason::Move || reason == SelectReason::Borrow || (
                old_reason == SelectReason::Call && reason == SelectReason::Call) {
                    if narrower {
                        Some((reason, local, range))
                    } else {
                        old
                    }
                } else {
                    old
                }
            },
        }
    }
}

/// Picks the local under the cursor at `pos` among the declared locals.
#[derive(Clone, Debug)]
pub struct SelectLocal {
    pub pos: Loc,
    pub candidate_local_decls: Vec<FnLocal>,
    pub selected: Option<(SelectReason, FnLocal, Range)>,
}

impl SelectLocal {
    /// The selector is for position `pos`, before anything is offered:
    /// nothing is a candidate or selected.
    pub open spec fn is_initial(self, pos: Loc) -> bool {
        &&& self.pos == pos
        &&& self.candidate_local_decls@.len() == 0
        &&& self.selected is None
    }

    pub fn new(pos: Loc) -> (r: Self)
        ensures
            r.pos == pos,
            r.candidate_local_decls@ == Seq::<FnLocal>::empty(),
            r.selected is None,
    {
        Self { pos, candidate_local_decls: Vec::new(), selected: None }
    }

    /// Offers `local` with `range` for `reason`; see `select_rule`.
    pub fn select(&mut self, reason: SelectReason, local: FnLocal, range: Range)
        ensures
            final(self).pos == old(self).pos,
            final(self).candidate_local_decls == old(self).candidate_local_decls,
            final(self).selected == select_rule(
                old(self).selected,
                reason,
                local,
                range,
                old(self).pos,
                old(self).candidate_local_decls@,
            ),
    {
        if !holds_local(&self.candidate_local_decls, local) {
            return ;
        }
        if range.from().0 <= self.pos.0 && self.pos.0 <= range.until().0 {
            if let Some((old_reason, _, old_range)) = self.selected {
                let narrower = range.size() < old_range.size();
                match (old_reason, reason) {
                    (_, SelectReason::Var) => {
                        if narrower {
                            self.selected = Some((reason, local, range));
                        }
                    },
                    (SelectReason::Var, _) => {},
                    (_, SelectReason::Move) | (_, SelectReason::Borrow) => {
                        if narrower {
                            self.selected = Some((reason, local, range));
                        }
                    },
                    (SelectReason::Call, SelectReason::Call) => {
                        if narrower {
                            self.selected = Some((reason, local, range));
                        }
                    },
                    _ => {},
                }
            } else {
                self.selected = Some((reason, local, range));
            }
        }
    }

    /// The selected local, if any.
    pub fn selected(&self) -> (r: Option<FnLocal>)
        ensures
            r == match self.selected {
                Some(s) => Some(s.1),
                None => None,
            },
    {
        match self.selected {
            Some(v) => Some(v.1),
            None => None,
        }
    }
}

impl MirVisitor for SelectLocal {
    open spec fn func_step(self, func: Function, next: Self) -> bool {
        next == self
    }

    /// A declaration that is not of async code becomes a candidate, and a
    /// user variable is offered for its declaration.
    open spec fn decl_step(self, decl: MirDecl, next: Self) -> bool {
        if is_async_decl(decl) {
            next == self
        } else {
            &&& next.pos == self.pos
            &&& next.candidate_local_decls@ == self.candidate_local_decls@.push(decl.local_of())
            &&& next.selected == match decl {
                MirDecl::User { local, span, .. } => select_rule(
                    self.selected,
                    SelectReason::Var,
                    local,
                    span,
                    self.pos,
                    next.candidate_local_decls@,
                ),
                MirDecl::Other { .. } => self.selected,
            }
        }
    }

    /// A move or a borrow is offered for its target.
    open spec fn stmt_step(self, stmt: MirStatement, next: Self) -> bool {
        match stmt {
            MirStatement::Assign { rval: Some(MirRval::Move { target_local, range }), .. } => {
                &&& next.pos == self.pos
                &&& next.candidate_local_decls == self.candidate_local_decls
                &&& next.selected == select_rule(
                    self.selected,
                    SelectReason::Move,
                    target_local,
                    range,
                    self.pos,
                    self.candidate_local_decls@,
                )
            },
            MirStatement::Assign { rval: Some(MirRval::Borrow { target_local, range, .. }), .. } => {
                &&& next.pos == self.pos
                &&& next.candidate_local_decls == self.candidate_local_decls
                &&& next.selected == select_rule(
                    self.selected,
                    SelectReason::Borrow,
                    target_local,
                    range,
                    self.pos,
                    self.candidate_local_decls@,
                )
            },
            _ => next == self,
        }
    }

    /// A call is offered for the local that receives its result.
    open spec fn term_step(self, term: MirTerminator, next: Self) -> bool {
        match term {
            MirTerminator::Call { destination_local, fn_span } => {
                &&& next.pos == self.pos
                &&& next.candidate_local_decls == self.candidate_local_decls
                &&& next.selected == select_rule(
                    self.selected,
                    SelectReason::Call,
                    destination_local,
                    fn_span,
                    self.pos,
                    self.candidate_local_decls@,
                )
            },
            _ => next == self,
        }
    }

    fn visit_func(&mut self, func: &Function) {
    }

    fn visit_decl(&mut self, decl: &MirDecl) {
        let (local, ty, name) = match decl {
            MirDecl::User { local, ty, name, .. } => (local, ty, Some(name)),
            MirDecl::Other { local, ty, .. } => (local, ty, None),
        };
        if str_is(ty, "std::future::ResumeTy") || str_is(ty, "impl std::future::Future<Output = ()>") {
            return ;
        }
        if let Some(var_name) = name {
            if str_is(var_name, "_task_context") || str_is(var_name, "__awaitee") {
                return ;
            }
        }
        self.candidate_local_decls.push(*local);
        if let MirDecl::User { local, span, .. } = decl {
            self.select(SelectReason::Var, *local, *span);
        }
    }

    fn visit_stmt(&mut self, stmt: &MirStatement) {
        if let MirStatement::Assign { rval, .. } = stmt {
            match rval {
                Some(MirRval::Move { target_local, range }) => {
                    self.select(SelectReason::Move, *target_local, *range);
                },
                Some(MirRval::Borrow { target_local, range, .. }) => {
                    self.select(SelectReason::Borrow, *target_local, *range);
                },
                _ => {},
            }
        }
    }

    fn visit_term(&mut self, term: &MirTerminator) {
        if let MirTerminator::Call { destination_local, fn_span } = term {
            self.select(SelectReason::Call, *destination_local, *fn_span);
        }
    }
}

/// The decorations of `s` of kind `k`, in order.
pub open spec fn of_kind(s: Seq<Deco>, k: int) -> Seq<Deco>
    decreases s.len(),
{
    if s.len() == 0 {
        s
    } else if s.last().kind() == k {
        of_kind(s.drop_last(), k).push(s.last())
    } else {
        of_kind(s.drop_last(), k)
    }
}

/// The decorations of `s` of a kind other than `k`, in order.
pub open spec fn not_kind(s: Seq<Deco>, k: int) -> Seq<Deco>
    decreases s.len(),
{
    if s.len() == 0 {
        s
    } else if s.last().kind() != k {
        not_kind(s.drop_last(), k).push(s.last())
    } else {
        not_kind(s.drop_last(), k)
    }
}

/// `s` sorted by kind, keeping the order of decorations of one kind.
pub open spec fn sorted_by_kind(s: Seq<Deco>) -> Seq<Deco> {
    of_kind(s, 0) + of_kind(s, 1) + of_kind(s, 2) + of_kind(s, 3) + of_kind(s, 4) + of_kind(s, 5)
        + of_kind(s, 6)
}

proof fn lemma_of_kind_not_kind(s: Seq<Deco>, a: int, b: int)
    requires
        a != b,
    ensures
        of_kind(not_kind(s, a), b) == of_kind(s, b),
    decreases s.len(),
{
    if s.len() > 0 {
        lemma_of_kind_not_kind(s.drop_last(), a, b);
        let n = not_kind(s.drop_last(), a);
        if s.last().kind() != a {
            assert(n.push(s.last()).drop_last() =~= n);
        }
    }
}

/// Moves the decorations of kind `kind` from `rest` to the end of `out`,
/// both keeping their order.
fn take_kind(rest: &mut Vec<Deco>, kind: u8, out: &mut Vec<Deco>)
    ensures
        final(out)@ == old(out)@ + of_kind(old(rest)@, kind as int),
        final(rest)@ == not_kind(old(rest)@, kind as int),
{
    let ghost orig = rest@;
    let ghost out0 = out@;
    let mut i: usize = 0;
    let ghost mut t: int = 0;
    proof {
        assert(orig.take(0) =~= Seq::<Deco>::empty());
        assert(rest@ =~= not_kind(orig.take(0), kind as int) + orig.skip(0));
        assert(out@ =~= out0 + of_kind(orig.take(0), kind as int));
    }
    while i < rest.len()
        invariant
            0 <= t <= orig.len(),
            rest@ == not_kind(orig.take(t), kind as int) + orig.skip(t),
            i == not_kind(orig.take(t), kind as int).len(),
            out@ == out0 + of_kind(orig.take(t), kind as int),
        decreases rest@.len() - i,
    {
        let ghost e = orig[t];
        proof {
            assert(orig.take(t + 1).drop_last() =~= orig.take(t));
            assert(orig.take(t + 1).last() == e);
            assert(rest@[i as int] == e);
        }
        if rest[i].parts().0 == kind {
            let d = rest.remove(i);
            out.push(d);
            proof {
                t = t + 1;
                assert(rest@ =~= not_kind(orig.take(t), kind as int) + orig.skip(t));
                assert(out@ =~= out0 + of_kind(orig.take(t), kind as int));
            }
        } else {
            i = i + 1;
            proof {
                t = t + 1;
                assert(rest@ =~= not_kind(orig.take(t), kind as int) + orig.skip(t));
            }
        }
    }
    proof {
        assert(orig.skip(t).len() == 0);
        assert(orig.take(t) =~= orig);
        assert(rest@ =~= not_kind(orig, kind as int));
    }
}

/// The decorations of the selected locals of a function.
#[derive(Clone, Debug)]
pub struct CalcDecos {
    pub locals: Vec<FnLocal>,
    pub decorations: Vec<Deco>,
    pub current_fn_id: u32,
}

/// `ds` are decorations of kind `kind` for `local`, one per range of
/// `ranges` in order, each with hover text `text` and not overlapped.
pub open spec fn decos_for(
    ds: Seq<Deco>,
    kind: int,
    local: FnLocal,
    ranges: Seq<Range>,
    text: Seq<char>,
) -> bool {
    &&& ds.len() == ranges.len()
    &&& forall|k: int| 0 <= k < ds.len() ==> (#[trigger] ds[k]).is(kind, local, ranges[k], text, false)
}

/// How a declaration is named in hover texts.
pub open spec fn var_text(decl: MirDecl) -> Seq<char> {
    match decl {
        MirDecl::User { name, .. } => "variable `"@ + name@ + "`"@,
        MirDecl::Other { .. } => "anonymous variable"@,
    }
}

/// `ds` are the decorations that a declaration of a selected local yields,
/// made from `lt`, `sm` and `ol`: first its lifetime (where it is dropped, if
/// it is, else where it lives) merged into separated ranges `lt`; then where
/// it is borrowed both ways at once, `sm`; then where it must live beyond its
/// lifetime, `ol`.
pub open spec fn decl_decos_from(
    decl: MirDecl,
    ds: Seq<Deco>,
    lt: Seq<Range>,
    sm: Seq<Range>,
    ol: Seq<Range>,
    d1: Seq<Deco>,
    d2: Seq<Deco>,
    d3: Seq<Deco>,
) -> bool {
    let local = decl.local_of();
    let v = var_text(decl);
    &&& same_cover(
        lt,
        if decl.drop_of() {
            decl.drop_range_of()
        } else {
            decl.lives_of()
        },
    )
    &&& separated(lt)
    &&& twice_cover(sm, decl.shared_borrow_of() + decl.mutable_borrow_of())
    &&& separated(sm)
    &&& exclusion_of(ol, decl.must_live_at_of(), lt)
    &&& separated(ol)
    &&& decos_for(d1, 0, local, lt, "lifetime of "@ + v)
    &&& decos_for(d2, 5, local, sm, "immutable and mutable borrows of "@ + v + " exist here"@)
    &&& decos_for(d3, 6, local, ol, v + " is required to live here"@)
    &&& ds == d1 + d2 + d3
}

/// `ds` are the decorations that a declaration of a selected local yields;
/// see `decl_decos_from`.
pub open spec fn decl_decos(decl: MirDecl, ds: Seq<Deco>) -> bool {
    exists|lt: Seq<Range>, sm: Seq<Range>, ol: Seq<Range>, d1: Seq<Deco>, d2: Seq<Deco>, d3: Seq<Deco>|
        #[trigger] decl_decos_from(decl, ds, lt, sm, ol, d1, d2, d3)
}

/// `s` without the call decorations whose range strictly contains `span`.
pub open spec fn drop_wider_calls(s: Seq<Deco>, span: Range) -> Seq<Deco>
    decreases s.len(),
{
    if s.len() == 0 {
        s
    } else if s.last().kind() == 4 && strictly_contains(s.last().range_of(), span) {
        drop_wider_calls(s.drop_last(), span)
    } else {
        drop_wider_calls(s.drop_last(), span).push(s.last())
    }
}

/// Copies a list of ranges.
fn copy_ranges(v: &Vec<Range>) -> (r: Vec<Range>)
    ensures
        r@ == v@,
{
    let mut r: Vec<Range> = Vec::new();
    let mut i: usize = 0;
    while i < v.len()
        invariant
            i <= v@.len(),
            r@ == v@.take(i as int),
        decreases v@.len() - i,
    {
        r.push(v[i]);
        i = i + 1;
        proof {
            assert(r@ =~= v@.take(i as int));
        }
    }
    proof {
        assert(v@.take(i as int) =~= v@);
    }
    r
}

/// Appends to `decorations` one decoration of kind `kind` for `local` per
/// range, each with a copy of `text`.
fn push_decos(
    decorations: &mut Vec<Deco>,
    kind: u8,
    local: FnLocal,
    ranges: &Vec<Range>,
    text: &String,
)
    requires
        kind <= 6,
    ensures
        final(decorations)@.len() == old(decorations)@.len() + ranges@.len(),
        final(decorations)@.take(old(decorations)@.len() as int) == old(decorations)@,
        decos_for(
            final(decorations)@.skip(old(decorations)@.len() as int),
            kind as int,
            local,
            ranges@,
            text@,
        ),
{
    let ghost start = decorations@;
    let mut i: usize = 0;
    while i < ranges.len()
        invariant
            i <= ranges@.len(),
            kind <= 6,
            decorations@.len() == start.len() + i,
            decorations@.take(start.len() as int) == start,
            decos_for(decorations@.skip(start.len() as int), kind as int, local, ranges@.take(i as int), text@),
        decreases ranges@.len() - i,
    {
        let d = Deco::with_kind(kind, local, ranges[i], text.clone(), false);
        let ghost before = decorations@;
        decorations.push(d);
        i = i + 1;
        proof {
            assert(decorations@.take(start.len() as int) =~= before.take(start.len() as int));
            let ds = decorations@.skip(start.len() as int);
            assert forall|k: int| 0 <= k < ds.len() implies (#[trigger] ds[k]).is(
                kind as int,
                local,
                ranges@.take(i as int)[k],
                text@,
                false,
            ) by {
                if k < ds.len() - 1 {
                    assert(ds[k] == before.skip(start.len() as int)[k]);
                }
            }
        }
    }
    proof {
        assert(ranges@.take(i as int) =~= ranges@);
    }
}

impl CalcDecos {
    pub fn new<const N: usize>(locals: [FnLocal; N]) -> (r: Self)
        ensures
            r.locals@ == locals@,
            r.decorations@ == Seq::<Deco>::empty(),
            r.current_fn_id == 0,
    {
        let mut v: Vec<FnLocal> = Vec::new();
        let mut i: usize = 0;
        while i < N
            invariant
                i <= N,
                locals@.len() == N,
                v@ == locals@.take(i as int),
            decreases N - i,
        {
            v.push(locals[i]);
            i = i + 1;
            proof {
                assert(v@ =~= locals@.take(i as int));
            }
        }
        proof {
            assert(locals@.take(i as int) =~= locals@);
        }
        Self { locals: v, decorations: Vec::new(), current_fn_id: 0 }
    }

    /// The position of the decoration's kind in drawing order.
    pub fn get_deco_order(deco: &Deco) -> (r: u8)
        ensures
            r == deco.kind(),
    {
        deco.parts().0
    }

    /// Sorts the decorations by kind, keeping the order within a kind.
    pub fn sort_by_definition(&mut self)
        ensures
            final(self).decorations@ == sorted_by_kind(old(self).decorations@),
            final(self).locals == old(self).locals,
            final(self).current_fn_id == old(self).current_fn_id,
    {
        let ghost s = self.decorations@;
        let mut rest: Vec<Deco> = Vec::new();
        std::mem::swap(&mut rest, &mut self.decorations);
        let mut out: Vec<Deco> = Vec::new();
        take_kind(&mut rest, 0, &mut out);
        take_kind(&mut rest, 1, &mut out);
        take_kind(&mut rest, 2, &mut out);
        take_kind(&mut rest, 3, &mut out);
        take_kind(&mut rest, 4, &mut out);
        take_kind(&mut rest, 5, &mut out);
        take_kind(&mut rest, 6, &mut out);
        proof {
            let n0 = not_kind(s, 0);
            let n1 = not_kind(n0, 1);
            let n2 = not_kind(n1, 2);
            let n3 = not_kind(n2, 3);
            let n4 = not_kind(n3, 4);
            let n5 = not_kind(n4, 5);
            lemma_of_kind_not_kind(s, 0, 1);
            lemma_of_kind_not_kind(s, 0, 2);
            lemma_of_kind_not_kind(n0, 1, 2);
            lemma_of_kind_not_kind(s, 0, 3);
            lemma_of_kind_not_kind(n0, 1, 3);
            lemma_of_kind_not_kind(n1, 2, 3);
            lemma_of_kind_not_kind(s, 0, 4);
            lemma_of_kind_not_kind(n0, 1, 4);
            lemma_of_kind_not_kind(n1, 2, 4);
            lemma_of_kind_not_kind(n2, 3, 4);
            lemma_of_kind_not_kind(s, 0, 5);
            lemma_of_kind_not_kind(n0, 1, 5);
            lemma_of_kind_not_kind(n1, 2, 5);
            lemma_of_kind_not_kind(n2, 3, 5);
            lemma_of_kind_not_kind(n3, 4, 5);
            lemma_of_kind_not_kind(s, 0, 6);
            lemma_of_kind_not_kind(n0, 1, 6);
            lemma_of_kind_not_kind(n1, 2, 6);
            lemma_of_kind_not_kind(n2, 3, 6);
            lemma_of_kind_not_kind(n3, 4, 6);
            lemma_of_kind_not_kind(n4, 5, 6);
            assert(out@ =~= sorted_by_kind(s));
        }
        self.decorations = out;
    }

    /// Sorts the decorations by kind, then, for each decoration in turn,
    /// compares it with those before it: an equal one is dropped; where it
    /// truly intersects an earlier one that is not yet marked overlapped, both
    /// are marked overlapped, the earlier one is cut down to the intersection,
    /// and the rest of its range follows it as new decorations, placed right
    /// after it. Ranges that only touch are not overlapping. The result is
    /// exactly the one that `overlap_result` describes.
    pub fn handle_overlapping(&mut self)
        ensures
            final(self).locals == old(self).locals,
            final(self).current_fn_id == old(self).current_fn_id,
            overlap_inv(final(self).decorations@, old(self).decorations@),
            weight(final(self).decorations@) <= weight(old(self).decorations@),
            quiet(sorted_by_kind(old(self).decorations@)) ==> final(self).decorations@
                == sorted_by_kind(old(self).decorations@),
            overlap_result(old(self).decorations@, dviews(final(self).decorations@)),
    {
        let ghost s_old = self.decorations@;
        let ghost locals0 = self.locals;
        let ghost fn0 = self.current_fn_id;
        self.sort_by_definition();
        let ghost s0 = self.decorations@;
        proof {
            lemma_sorted_by_kind(s_old);
            lemma_weight_sorted(s_old);
            lemma_len_sorted(s_old);
        }
        let mut i: usize = 1;
        let ghost mut k: nat = 0;
        while i < self.decorations.len()
            invariant
                forall|m: nat| #[trigger] overlap_rounds(dviews(s0), 1, k + m) == overlap_rounds(dviews(self.decorations@), i as int, m),
                self.locals == locals0,
                self.current_fn_id == fn0,
                s0 == sorted_by_kind(s_old),
                overlap_inv(self.decorations@, s_old),
                weight(self.decorations@) <= weight(s_old),
                quiet(s0) ==> self.decorations@ == s0,
            decreases weight(self.decorations@), self.decorations@.len() - i,
        {
            let ghost w0 = weight(self.decorations@);
            let ghost n0 = self.decorations@.len();
            proof {
                lemma_weight_nonneg(self.decorations@);
            }
            let current_range = *self.decorations[i].parts().2;
            let ghost de = dviews(self.decorations@);
            let ghost lo = current_range.lo();
            let ghost hi = current_range.hi();
            let mut j: usize = 0;
            let mut removed = false;
            while j < i && !removed
                invariant
                    !removed ==> overlap_inner(de, i as int, 0, lo, hi) == overlap_inner(dviews(self.decorations@), i as int, j as int, lo, hi),
                    removed ==> overlap_inner(de, i as int, 0, lo, hi) == (dviews(self.decorations@), true),
                    lo == current_range.lo(),
                    hi == current_range.hi(),
                    self.locals == locals0,
                    self.current_fn_id == fn0,
                    j <= i,
                    removed ==> i <= self.decorations@.len(),
                    !removed ==> i < self.decorations@.len(),
                    overlap_inv(self.decorations@, s_old),
                    0 <= weight(self.decorations@) <= w0,
                    w0 <= weight(s_old),
                    weight(self.decorations@) < w0 || self.decorations@.len() == n0 - (if removed {
                        1int
                    } else {
                        0int
                    }),
                    quiet(s0) ==> (self.decorations@ == s0 && !removed && current_range
                        == s0[i as int].range_of()),
                decreases i - j + (if removed {
                    0int
                } else {
                    1int
                }),
            {
                let ghost dv = dviews(self.decorations@);
                proof {
                    Range::lemma_range_ext(self.decorations@[j as int].range_of(), self.decorations@[i as int].range_of());
                }
                if same_deco(&self.decorations[j], &self.decorations[i]) {
                    proof {
                        lemma_remove_step(self.decorations@, s_old, i as int, j as int);
                        lemma_weight_nonneg(self.decorations@.remove(i as int));
                        assert(dv[j as int] == dv[i as int]);
                    }
                    self.decorations.remove(i);
                    removed = true;
                    proof {
                        assert(dviews(self.decorations@) =~= dv.remove(i as int));
                    }
                } else {
                    proof {
                        assert(dv[j as int] != dv[i as int]);
                    }
                    let (_, _, prev, _, prev_overlapped) = self.decorations[j].parts();
                    let prev_range = *prev;
                    if !prev_overlapped {
                        if let Some(common) = common_range(current_range, prev_range) {
                            let ghost d = self.decorations@;
                            mark_overlapped(&mut self.decorations, i);
                            let ghost d1 = self.decorations@;
                            proof {
                                lemma_mark_step(d, s_old, i as int, d1[i as int]);
                                assert(d1[j as int] == d[j as int]);
                                lemma_weight_split(d1, j as int);
                                lemma_weight_nonneg(d1.take(j as int));
                                lemma_weight_nonneg(d1.skip(j + 1));
                            }
                            let pieces = split_around(prev_range, common);
                            split_deco(&mut self.decorations, j, common, &pieces);
                            proof {
                                let d2 = self.decorations@;
                                let p = d2.subrange(j + 1, j + 1 + pieces@.len());
                                let c_lo = max(lo, dv[j as int].2);
                                let c_hi = min(hi, dv[j as int].3);
                                let dv1 = dv.update(i as int, marked(dv[i as int]));
                                assert(dviews(d1) =~= dv1);
                                let sb = split_bounds(dv1[j as int].2, dv1[j as int].3, c_lo, c_hi);
                                assert(pieces@.map_values(|x: Range| (x.lo(), x.hi())) == sb);
                                assert forall|t: int| 0 <= t < p.len() implies #[trigger] dview(p[t]) == sb.map_values(
                                    |b: (int, int)| (dv1[j as int].0, dv1[j as int].1, b.0, b.1, dv1[j as int].4, false),
                                )[t] by {
                                    assert(pieces@.map_values(|x: Range| (x.lo(), x.hi()))[t] == sb[t]);
                                }
                                assert(dviews(d2) =~= split_at(dv1, j as int, c_lo, c_hi));
                                lemma_weight_pieces(p, pieces@, d1[j as int]);
                                assert forall|k: int| 0 <= k < p.len() implies descends(
                                    #[trigger] p[k],
                                    d1[j as int],
                                ) by {
                                    assert(p[k].is(
                                        d1[j as int].kind(),
                                        d1[j as int].local_of(),
                                        pieces@[k],
                                        d1[j as int].text_of(),
                                        false,
                                    ));
                                }
                                lemma_split_step(d1, s_old, j as int, d2[j as int], p);
                                lemma_weight_nonneg(d2);
                            }
                        }
                    }
                    j = j + 1;
                }
            }
            proof {
                if !removed {
                    assert(overlap_inner(dviews(self.decorations@), i as int, j as int, lo, hi) == (dviews(self.decorations@), false));
                }
                let ghost i0 = i as int;
                assert(de[i0].2 == lo && de[i0].3 == hi);
                assert forall|m: nat| #[trigger] overlap_rounds(dviews(s0), 1, (k + 1) + m) == overlap_rounds(
                    dviews(self.decorations@),
                    if removed { i0 } else { i0 + 1 },
                    m,
                ) by {
                    assert(overlap_rounds(dviews(s0), 1, k + (m + 1)) == overlap_rounds(de, i0, (m + 1) as nat));
                    assert((k + 1) + m == k + (m + 1));
                }
                k = k + 1;
            }
            if !removed {
                i = i + 1;
            }
        }
        proof {
            assert(overlap_rounds(dviews(s0), 1, k + 0) == overlap_rounds(dviews(self.decorations@), i as int, 0));
            assert(overlap_rounds(dviews(sorted_by_kind(s_old)), 1, k) == Some(dviews(self.decorations@)));
        }
    }

    /// The decorations gathered so far.
    pub fn decorations(self) -> (r: Vec<Deco>)
        ensures
            r@ == self.decorations@,
    {
        self.decorations
    }
}

impl MirVisitor for CalcDecos {
    open spec fn func_step(self, func: Function, next: Self) -> bool {
        next == self
    }

    /// A declaration of a selected local adds its decorations (see
    /// `decl_decos`); every declaration sets the current function.
    open spec fn decl_step(self, decl: MirDecl, next: Self) -> bool {
        &&& next.locals == self.locals
        &&& next.current_fn_id == decl.local_of().fn_id
        &&& if self.locals@.contains(decl.local_of()) {
            &&& next.decorations@.len() >= self.decorations@.len()
            &&& next.decorations@.take(self.decorations@.len() as int) == self.decorations@
            &&& decl_decos(decl, next.decorations@.skip(self.decorations@.len() as int))
        } else {
            next.decorations == self.decorations
        }
    }

    /// A move of a selected local adds a move decoration; a borrow adds a
    /// mutable or an immutable borrow decoration.
    open spec fn stmt_step(self, stmt: MirStatement, next: Self) -> bool {
        match stmt {
            MirStatement::Assign { rval: Some(MirRval::Move { target_local, range }), .. } => {
                if self.locals@.contains(target_local) {
                    &&& next.locals == self.locals
                    &&& next.current_fn_id == self.current_fn_id
                    &&& next.decorations@.len() == self.decorations@.len() + 1
                    &&& next.decorations@.drop_last() == self.decorations@
                    &&& next.decorations@.last().is(3, target_local, range, "variable moved"@, false)
                } else {
                    next == self
                }
            },
            MirStatement::Assign {
                rval: Some(MirRval::Borrow { target_local, range, mutable, .. }),
                ..
            } => {
                if self.locals@.contains(target_local) {
                    &&& next.locals == self.locals
                    &&& next.current_fn_id == self.current_fn_id
                    &&& next.decorations@.len() == self.decorations@.len() + 1
                    &&& next.decorations@.drop_last() == self.decorations@
                    &&& if mutable {
                        next.decorations@.last().is(2, target_local, range, "mutable borrow"@, false)
                    } else {
                        next.decorations@.last().is(
                            1,
                            target_local,
                            range,
                            "immutable borrow"@,
                            false,
                        )
                    }
                } else {
                    next == self
                }
            },
            _ => next == self,
        }
    }

    /// A call whose result a selected local holds adds a call decoration,
    /// unless a call decoration lies strictly within its range; call
    /// decorations whose range strictly contains it go.
    open spec fn term_step(self, term: MirTerminator, next: Self) -> bool {
        match term {
            MirTerminator::Call { destination_local, fn_span } => {
                if self.locals@.contains(destination_local) && !exists|k: int|
                    0 <= k < self.decorations@.len() && (#[trigger] self.decorations@[k]).kind() == 4
                        && strictly_contains(fn_span, self.decorations@[k].range_of()) {
                    &&& next.locals == self.locals
                    &&& next.current_fn_id == self.current_fn_id
                    &&& next.decorations@.len() >= 1
                    &&& next.decorations@.drop_last() == drop_wider_calls(self.decorations@, fn_span)
                    &&& next.decorations@.last().is(
                        4,
                        destination_local,
                        fn_span,
                        "function call"@,
                        false,
                    )
                } else {
                    next == self
                }
            },
            _ => next == self,
        }
    }

    fn visit_func(&mut self, func: &Function) {
    }

    fn visit_decl(&mut self, decl: &MirDecl) {
        let (local, lives, shared_borrow, mutable_borrow, drop_range, must_live_at, name, drop) =
            match decl {
            MirDecl::User {
                local,
                name,
                lives,
                shared_borrow,
                mutable_borrow,
                drop_range,
                must_live_at,
                drop,
                ..
            } => (
                *local,
                lives,
                shared_borrow,
                mutable_borrow,
                drop_range,
                must_live_at,
                Some(name),
                drop,
            ),
            MirDecl::Other {
                local,
                lives,
                shared_borrow,
                mutable_borrow,
                drop_range,
                must_live_at,
                drop,
                ..
            } => (*local, lives, shared_borrow, mutable_borrow, drop_range, must_live_at, None, drop),
        };
        self.current_fn_id = local.fn_id;
        if holds_local(&self.locals, local) {
            let ghost start = self.decorations@;
            let var_str = match name {
                Some(mir_var_name) => {
                    let mut v = "variable `".to_owned();
                    v.append(mir_var_name.as_str());
                    v.append("`");
                    v
                },
                None => "anonymous variable".to_owned(),
            };
            let drop_copy_live = if *drop {
                eliminated_ranges(copy_ranges(drop_range))
            } else {
                eliminated_ranges(copy_ranges(lives))
            };
            let mut lifetime_text = "lifetime of ".to_owned();
            lifetime_text.append(var_str.as_str());
            push_decos(&mut self.decorations, 0, local, &drop_copy_live, &lifetime_text);
            let ghost after1 = self.decorations@;
            let mut borrow_ranges = copy_ranges(shared_borrow);
            let mut mutable_ranges = copy_ranges(mutable_borrow);
            borrow_ranges.append(&mut mutable_ranges);
            let shared_mut = common_ranges(borrow_ranges.as_slice());
            let mut shared_mut_text = "immutable and mutable borrows of ".to_owned();
            shared_mut_text.append(var_str.as_str());
            shared_mut_text.append(" exist here");
            push_decos(&mut self.decorations, 5, local, &shared_mut, &shared_mut_text);
            let ghost after2 = self.decorations@;
            let ghost lt = drop_copy_live@;
            let outlive = exclude_ranges(copy_ranges(must_live_at), drop_copy_live);
            let mut outlive_text = var_str.clone();
            outlive_text.append(" is required to live here");
            push_decos(&mut self.decorations, 6, local, &outlive, &outlive_text);
            proof {
                let v = var_text(*decl);
                assert(var_str@ == v);
                assert(*drop == decl.drop_of());
                let d1 = after1.skip(start.len() as int);
                let d2 = after2.skip(after1.len() as int);
                let d3 = self.decorations@.skip(after2.len() as int);
                assert(self.decorations@ =~= start + (d1 + d2 + d3)) by {
                    assert(after1 =~= start + d1);
                    assert(after2 =~= after1 + d2);
                    assert(self.decorations@ =~= after2 + d3);
                }
                assert(self.decorations@.take(start.len() as int) =~= start);
                assert(self.decorations@.skip(start.len() as int) =~= d1 + d2 + d3);
                assert(borrow_ranges@ == decl.shared_borrow_of() + decl.mutable_borrow_of());
                assert(same_cover(lt, if decl.drop_of() { decl.drop_range_of() } else { decl.lives_of() }));
                assert(twice_cover(shared_mut@, decl.shared_borrow_of() + decl.mutable_borrow_of()));
                assert(exclusion_of(outlive@, decl.must_live_at_of(), lt));
                assert(decos_for(d1, 0, local, lt, "lifetime of "@ + v));
                assert(decos_for(d2, 5, local, shared_mut@, "immutable and mutable borrows of "@ + v + " exist here"@));
                assert(decos_for(d3, 6, local, outlive@, v + " is required to live here"@));
                assert(decl_decos_from(*decl, d1 + d2 + d3, lt, shared_mut@, outlive@, d1, d2, d3));
                assert(decl_decos(*decl, d1 + d2 + d3));
            }
        }
    }

    fn visit_stmt(&mut self, stmt: &MirStatement) {
        let ghost old_d = self.decorations@;
        if let MirStatement::Assign { rval, .. } = stmt {
            match rval {
                Some(MirRval::Move { target_local, range }) => {
                    if holds_local(&self.locals, *target_local) {
                        self.decorations.push(
                            Deco::Move {
                                local: *target_local,
                                range: *range,
                                hover_text: "variable moved".to_owned(),
                                overlapped: false,
                            },
                        );
                        assert(self.decorations@.drop_last() =~= old_d);
                    }
                },
                Some(MirRval::Borrow { target_local, range, mutable, .. }) => {
                    if holds_local(&self.locals, *target_local) {
                        if *mutable {
                            self.decorations.push(
                                Deco::MutBorrow {
                                    local: *target_local,
                                    range: *range,
                                    hover_text: "mutable borrow".to_owned(),
                                    overlapped: false,
                                },
                            );
                            assert(self.decorations@.drop_last() =~= old_d);
                        } else {
                            self.decorations.push(
                                Deco::ImmBorrow {
                                    local: *target_local,
                                    range: *range,
                                    hover_text: "immutable borrow".to_owned(),
                                    overlapped: false,
                                },
                            );
                            assert(self.decorations@.drop_last() =~= old_d);
                        }
                    }
                },
                _ => {},
            }
        }
    }

    fn visit_term(&mut self, term: &MirTerminator) {
        if let MirTerminator::Call { destination_local, fn_span } = term {
            if holds_local(&self.locals, *destination_local) {
                let ghost s0 = *self;
                let mut k: usize = 0;
                let mut inner = false;
                while k < self.decorations.len() && !inner
                    invariant
                        *self == s0,
                        k <= self.decorations@.len(),
                        inner ==> exists|m: int|
                            0 <= m < s0.decorations@.len() && (#[trigger] s0.decorations@[m]).kind()
                                == 4 && strictly_contains(*fn_span, s0.decorations@[m].range_of()),
                        !inner ==> forall|m: int|
                            0 <= m < k ==> !((#[trigger] self.decorations@[m]).kind() == 4
                                && strictly_contains(*fn_span, self.decorations@[m].range_of())),
                    decreases self.decorations@.len() - k + (if inner { 0int } else { 1int }),
                {
                    let (kind, _, range, _, _) = self.decorations[k].parts();
                    if kind == 4 && is_super_range(*fn_span, *range) {
                        assert(s0.decorations@[k as int].kind() == 4 && strictly_contains(
                            *fn_span,
                            s0.decorations@[k as int].range_of(),
                        ));
                        inner = true;
                    } else {
                        k = k + 1;
                    }
                }
                if inner {
                    return ;
                }
                let ghost orig = self.decorations@;
                let mut i: usize = 0;
                let ghost mut t: int = 0;
                proof {
                    assert(orig.take(0) =~= Seq::<Deco>::empty());
                    assert(self.decorations@ =~= drop_wider_calls(orig.take(0), *fn_span) + orig.skip(0));
                }
                while i < self.decorations.len()
                    invariant
                        self.locals == s0.locals,
                        self.current_fn_id == s0.current_fn_id,
                        0 <= t <= orig.len(),
                        self.decorations@ == drop_wider_calls(orig.take(t), *fn_span) + orig.skip(t),
                        i == drop_wider_calls(orig.take(t), *fn_span).len(),
                    decreases self.decorations@.len() - i,
                {
                    let ghost e = orig[t];
                    proof {
                        assert(orig.take(t + 1).drop_last() =~= orig.take(t));
                        assert(orig.take(t + 1).last() == e);
                        assert(self.decorations@[i as int] == e);
                    }
                    let (kind, _, range, _, _) = self.decorations[i].parts();
                    if kind == 4 && is_super_range(*range, *fn_span) {
                        self.decorations.remove(i);
                        proof {
                            t = t + 1;
                            assert(self.decorations@ =~= drop_wider_calls(orig.take(t), *fn_span)
                                + orig.skip(t));
                        }
                    } else {
                        i = i + 1;
                        proof {
                            t = t + 1;
                            assert(self.decorations@ =~= drop_wider_calls(orig.take(t), *fn_span)
                                + orig.skip(t));
                        }
                    }
                }
                proof {
                    assert(orig.take(t) =~= orig);
                    assert(self.decorations@ =~= drop_wider_calls(orig, *fn_span));
                }
                self.decorations.push(
                    Deco::Call {
                        local: *destination_local,
                        range: *fn_span,
                        hover_text: "function call".to_owned(),
                        overlapped: false,
                    },
                );
                assert(self.decorations@.drop_last() =~= drop_wider_calls(orig, *fn_span));
            }
        }
    }
}

/// Whether the two decorations agree in every field.
pub fn same_deco(a: &Deco, b: &Deco) -> (r: bool)
    ensures
        r == a.same_as(*b),
{
    let (ka, la, ra, ta, oa) = a.parts();
    let (kb, lb, rb, tb, ob) = b.parts();
    ka == kb && la == lb && *ra == *rb && *ta == *tb && oa == ob
}

/// `d` with its range and overlapped flag replaced.
fn reshaped(d: Deco, range: Range, overlapped: bool) -> (r: Deco)
    ensures
        r.is(d.kind(), d.local_of(), range, d.text_of(), overlapped),
{
    match d {
        Deco::Lifetime { local, hover_text, .. } => Deco::Lifetime {
            local,
            range,
            hover_text,
            overlapped,
        },
        Deco::ImmBorrow { local, hover_text, .. } => Deco::ImmBorrow {
            local,
            range,
            hover_text,
            overlapped,
        },
        Deco::MutBorrow { local, hover_text, .. } => Deco::MutBorrow {
            local,
            range,
            hover_text,
            overlapped,
        },
        Deco::Move { local, hover_text, .. } => Deco::Move { local, range, hover_text, overlapped },
        Deco::Call { local, hover_text, .. } => Deco::Call { local, range, hover_text, overlapped },
        Deco::SharedMut { local, hover_text, .. } => Deco::SharedMut {
            local,
            range,
            hover_text,
            overlapped,
        },
        Deco::Outlive { local, hover_text, .. } => Deco::Outlive {
            local,
            range,
            hover_text,
            overlapped,
        },
    }
}

/// The bounds of the parts of `lo..hi` on either side of `c_lo..c_hi`, the
/// part before first, each only where it holds a position.
pub open spec fn split_bounds(lo: int, hi: int, c_lo: int, c_hi: int) -> Seq<(int, int)> {
    (if lo < c_lo {
        seq![(lo, c_lo)]
    } else {
        Seq::empty()
    }) + (if c_hi < hi {
        seq![(c_hi, hi)]
    } else {
        Seq::empty()
    })
}

/// A decoration as the overlap pass reads it: its kind, local, the bounds
/// of its range, its hover text and whether it is marked overlapped.
pub type DecoView = (int, FnLocal, int, int, Seq<char>, bool);

pub open spec fn dview(d: Deco) -> DecoView {
    (d.kind(), d.local_of(), d.range_of().lo(), d.range_of().hi(), d.text_of(), d.overlapped_of())
}

pub open spec fn dviews(s: Seq<Deco>) -> Seq<DecoView> {
    s.map_values(|d: Deco| dview(d))
}

/// Decoration `d` marked overlapped.
pub open spec fn marked(d: DecoView) -> DecoView {
    (d.0, d.1, d.2, d.3, d.4, true)
}

/// `s` with decoration `j` cut down to `c_lo..c_hi` and marked overlapped,
/// and the rest of its range following it as new decorations of the same
/// kind, local and text, not marked: the part before the cut first.
pub open spec fn split_at(s: Seq<DecoView>, j: int, c_lo: int, c_hi: int) -> Seq<DecoView> {
    let d = s[j];
    s.take(j) + seq![(d.0, d.1, c_lo, c_hi, d.4, true)] + split_bounds(d.2, d.3, c_lo, c_hi).map_values(
        |b: (int, int)| (d.0, d.1, b.0, b.1, d.4, false),
    ) + s.skip(j + 1)
}

/// The overlap pass comparing decoration `i` (whose range, when the
/// comparisons began, was `lo..hi`) with each decoration `j..i` before it:
/// an equal one drops decoration `i` and ends the comparisons; where the
/// range `lo..hi` truly intersects one that is not yet marked overlapped,
/// decoration `i` is marked overlapped and that one is cut down to the
/// intersection with the rest following it (see `split_at`). Gives the
/// decorations after, and whether decoration `i` was dropped.
pub open spec fn overlap_inner(s: Seq<DecoView>, i: int, j: int, lo: int, hi: int) -> (Seq<DecoView>, bool)
    decreases i - j,
{
    if j < 0 || j >= i || i >= s.len() {
        (s, false)
    } else if s[j] == s[i] {
        (s.remove(i), true)
    } else if !s[j].5 && max(lo, s[j].2) < min(hi, s[j].3) {
        overlap_inner(split_at(s.update(i, marked(s[i])), j, max(lo, s[j].2), min(hi, s[j].3)), i, j + 1, lo, hi)
    } else {
        overlap_inner(s, i, j + 1, lo, hi)
    }
}

/// At most `fuel` rounds of the overlap pass from decoration `i` on: each
/// round compares one decoration with those before it (see
/// `overlap_inner`), and the next round takes the next decoration, or the
/// same place again where the decoration was dropped. `None` where the
/// fuel runs out first.
pub open spec fn overlap_rounds(s: Seq<DecoView>, i: int, fuel: nat) -> Option<Seq<DecoView>>
    decreases fuel,
{
    if i < 0 || i >= s.len() {
        Some(s)
    } else if fuel == 0 {
        None
    } else {
        let (s2, dropped) = overlap_inner(s, i, 0, s[i].2, s[i].3);
        overlap_rounds(s2, if dropped { i } else { i + 1 }, (fuel - 1) as nat)
    }
}

/// `r` is what the overlap pass makes of decorations `s`: sorted by kind,
/// then each from the second on compared with those before it.
pub open spec fn overlap_result(s: Seq<Deco>, r: Seq<DecoView>) -> bool {
    exists|n: nat| overlap_rounds(dviews(sorted_by_kind(s)), 1, n) == Some(r)
}

proof fn lemma_overlap_rounds_fuel(s: Seq<DecoView>, i: int, n: nat, m: nat)
    requires
        overlap_rounds(s, i, n) is Some,
        n <= m,
    ensures
        overlap_rounds(s, i, m) == overlap_rounds(s, i, n),
    decreases n,
{
    if 0 <= i < s.len() && n > 0 {
        let (s2, dropped) = overlap_inner(s, i, 0, s[i].2, s[i].3);
        lemma_overlap_rounds_fuel(s2, if dropped { i } else { i + 1 }, (n - 1) as nat, (m - 1) as nat);
    }
}

/// The overlap pass gives one result: any two results it can give for the
/// same decorations are the same.
pub proof fn law_overlap_result_unique(s: Seq<Deco>, r1: Seq<DecoView>, r2: Seq<DecoView>)
    requires
        overlap_result(s, r1),
        overlap_result(s, r2),
    ensures
        r1 == r2,
{
    let t = dviews(sorted_by_kind(s));
    let n1 = choose|n: nat| overlap_rounds(t, 1, n) == Some(r1);
    let n2 = choose|n: nat| overlap_rounds(t, 1, n) == Some(r2);
    if n1 <= n2 {
        lemma_overlap_rounds_fuel(t, 1, n1, n2);
    } else {
        lemma_overlap_rounds_fuel(t, 1, n2, n1);
    }
}

/// The parts of `prev` on either side of `common`: what cutting `common`
/// out of `prev` leaves, the part before it first.
pub fn split_around(prev: Range, common: Range) -> (r: Vec<Range>)
    requires
        prev.lo() <= common.lo(),
        common.hi() <= prev.hi(),
    ensures
        r@.map_values(|x: Range| (x.lo(), x.hi())) == split_bounds(prev.lo(), prev.hi(), common.lo(), common.hi()),
        r@.len() <= 2,
        forall|k: int|
            0 <= k < r@.len() ==> prev.lo() <= (#[trigger] r@[k]).lo() && r@[k].hi() <= prev.hi(),
        forall|k: int| 0 <= k < r@.len() ==> !overlaps(#[trigger] r@[k], common),
        total_size(r@) < range_len(prev),
        forall|x: int| (#[trigger] covers(r@, x)) <==> prev.has(x) && !common.has(x),
{
    proof {
        use_type_invariant(&common);
        use_type_invariant(&prev);
    }
    let left = Range::new(prev.from(), common.from());
    let right = Range::new(common.until(), prev.until());
    let mut r: Vec<Range> = Vec::new();
    if let Some(x) = left {
        r.push(x);
    }
    if let Some(x) = right {
        r.push(x);
    }
    proof {
        reveal_with_fuel(total_size, 3);
        if r@.len() == 2 {
            assert(r@.drop_last().drop_last() =~= Seq::<Range>::empty());
            assert(r@.drop_last() =~= seq![r@[0]]);
        } else if r@.len() == 1 {
            assert(r@.drop_last() =~= Seq::<Range>::empty());
        }
        assert forall|x: int| covers(r@, x) <==> prev.has(x) && !common.has(x) by {
            if prev.has(x) && x < common.lo() {
                assert(r@[0].has(x));
            }
            if prev.has(x) && x >= common.hi() {
                assert(r@[r@.len() - 1].has(x));
            }
        }
        assert(r@.map_values(|x: Range| (x.lo(), x.hi())) =~= split_bounds(prev.lo(), prev.hi(), common.lo(), common.hi()));
    }
    r
}

/// What a decoration counts toward the progress of the overlap pass: the
/// size of its range unless it is marked overlapped.
pub open spec fn deco_weight(d: Deco) -> int {
    if d.overlapped_of() {
        0
    } else {
        range_len(d.range_of())
    }
}

pub open spec fn weight(s: Seq<Deco>) -> int
    decreases s.len(),
{
    if s.len() == 0 {
        0
    } else {
        weight(s.drop_last()) + deco_weight(s.last())
    }
}

proof fn lemma_weight_concat(a: Seq<Deco>, b: Seq<Deco>)
    ensures
        weight(a + b) == weight(a) + weight(b),
        weight(b) >= 0,
    decreases b.len(),
{
    if b.len() == 0 {
        assert(a + b =~= a);
    } else {
        lemma_weight_concat(a, b.drop_last());
        assert((a + b).drop_last() =~= a + b.drop_last());
    }
}

proof fn lemma_weight_nonneg(s: Seq<Deco>)
    ensures
        weight(s) >= 0,
{
    lemma_weight_concat(Seq::<Deco>::empty(), s);
    assert(Seq::<Deco>::empty() + s =~= s);
}

proof fn lemma_weight_one(d: Deco)
    ensures
        weight(seq![d]) == deco_weight(d),
{
    assert(seq![d].drop_last() =~= Seq::<Deco>::empty());
    assert(weight(Seq::<Deco>::empty()) == 0);
    assert(seq![d].last() == d);
}

proof fn lemma_weight_split(s: Seq<Deco>, i: int)
    requires
        0 <= i < s.len(),
    ensures
        weight(s) == weight(s.take(i)) + deco_weight(s[i]) + weight(s.skip(i + 1)),
{
    assert(s =~= s.take(i) + seq![s[i]] + s.skip(i + 1));
    lemma_weight_concat(s.take(i) + seq![s[i]], s.skip(i + 1));
    lemma_weight_concat(s.take(i), seq![s[i]]);
    lemma_weight_one(s[i]);
}

proof fn lemma_weight_update(s: Seq<Deco>, i: int, e: Deco)
    requires
        0 <= i < s.len(),
    ensures
        weight(s.update(i, e)) == weight(s) - deco_weight(s[i]) + deco_weight(e),
{
    let t = s.update(i, e);
    lemma_weight_split(s, i);
    lemma_weight_split(t, i);
    assert(t.take(i) =~= s.take(i));
    assert(t.skip(i + 1) =~= s.skip(i + 1));
}

proof fn lemma_weight_remove(s: Seq<Deco>, i: int)
    requires
        0 <= i < s.len(),
    ensures
        weight(s.remove(i)) == weight(s) - deco_weight(s[i]),
{
    lemma_weight_split(s, i);
    assert(s.remove(i) =~= s.take(i) + s.skip(i + 1));
    lemma_weight_concat(s.take(i), s.skip(i + 1));
}

/// Decorations `p` are those made from `pieces`: not overlapped, with the
/// kind, local and hover text of `d`.
pub open spec fn pieces_of(p: Seq<Deco>, pieces: Seq<Range>, d: Deco) -> bool {
    &&& p.len() == pieces.len()
    &&& forall|k: int|
        0 <= k < p.len() ==> (#[trigger] p[k]).is(d.kind(), d.local_of(), pieces[k], d.text_of(), false)
}

proof fn lemma_weight_pieces(p: Seq<Deco>, pieces: Seq<Range>, d: Deco)
    requires
        pieces_of(p, pieces, d),
    ensures
        weight(p) == total_size(pieces),
    decreases p.len(),
{
    if p.len() > 0 {
        let n = p.len() - 1;
        assert(pieces_of(p.drop_last(), pieces.drop_last(), d)) by {
            assert forall|k: int| 0 <= k < p.drop_last().len() implies (
            #[trigger] p.drop_last()[k]).is(
                d.kind(),
                d.local_of(),
                pieces.drop_last()[k],
                d.text_of(),
                false,
            ) by {
                assert(p.drop_last()[k] == p[k]);
            }
        }
        lemma_weight_pieces(p.drop_last(), pieces.drop_last(), d);
        assert(p[n].is(d.kind(), d.local_of(), pieces[n], d.text_of(), false));
    }
}

/// `r` keeps the kind, local and hover text of `d`, and its range lies
/// within that of `d`.
pub open spec fn descends(r: Deco, d: Deco) -> bool {
    &&& r.kind() == d.kind()
    &&& r.local_of() == d.local_of()
    &&& r.text_of() == d.text_of()
    &&& d.range_of().lo() <= r.range_of().lo()
    &&& r.range_of().hi() <= d.range_of().hi()
}

/// The two decorations have the same kind, local and hover text.
pub open spec fn same_origin(r: Deco, d: Deco) -> bool {
    &&& r.kind() == d.kind()
    &&& r.local_of() == d.local_of()
    &&& r.text_of() == d.text_of()
}

/// The decorations are sorted by kind.
pub open spec fn kind_sorted(s: Seq<Deco>) -> bool {
    forall|a: int, b: int|
        0 <= a < b < s.len() ==> (#[trigger] s[a]).kind() <= (#[trigger] s[b]).kind()
}

/// No two decorations of `s` share a position or agree in every field.
pub open spec fn quiet(s: Seq<Deco>) -> bool {
    forall|a: int, b: int|
        0 <= a < s.len() && 0 <= b < s.len() && a != b ==> !overlaps(
            (#[trigger] s[a]).range_of(),
            (#[trigger] s[b]).range_of(),
        ) && !s[a].same_as(s[b])
}

/// Decoration `d` comes from one of `s0`: same kind, local and hover text,
/// and a range within its range.
pub open spec fn from_some(d: Deco, s0: Seq<Deco>) -> bool {
    exists|m: int| 0 <= m < s0.len() && descends(d, #[trigger] s0[m])
}

/// Every decoration of `s` comes from one of `s0`.
pub open spec fn provenance(s: Seq<Deco>, s0: Seq<Deco>) -> bool {
    forall|k: int| 0 <= k < s.len() ==> #[trigger] from_some(s[k], s0)
}

/// Every decoration of `s0` still has one of the same kind, local and hover
/// text in `s`.
pub open spec fn represented(s: Seq<Deco>, s0: Seq<Deco>) -> bool {
    forall|m: int| 0 <= m < s0.len() ==> #[trigger] has_origin(s, s0[m])
}

/// What the overlap pass keeps of the decorations `s0` it started from.
pub open spec fn overlap_inv(s: Seq<Deco>, s0: Seq<Deco>) -> bool {
    &&& kind_sorted(s)
    &&& provenance(s, s0)
    &&& represented(s, s0)
}

proof fn lemma_of_kind_members(s: Seq<Deco>, k: int)
    ensures
        forall|x: int| 0 <= x < of_kind(s, k).len() ==> (#[trigger] of_kind(s, k)[x]).kind() == k,
        provenance(of_kind(s, k), s),
        forall|m: int|
            0 <= m < s.len() && (#[trigger] s[m]).kind() == k ==> has_origin(of_kind(s, k), s[m]),
    decreases s.len(),
{
    if s.len() > 0 {
        let t = s.drop_last();
        lemma_of_kind_members(t, k);
        let o = of_kind(t, k);
        let o2 = of_kind(s, k);
        assert forall|x: int| 0 <= x < o2.len() implies #[trigger] from_some(o2[x], s) by {
            if x < o.len() {
                assert(from_some(o[x], t));
                let m = choose|m: int| 0 <= m < t.len() && descends(o[x], t[m]);
                assert(s[m] == t[m]);
                assert(o2[x] == o[x]);
                assert(descends(o2[x], s[m]));
            } else {
                assert(o2[x] == s[s.len() - 1]);
                assert(descends(o2[x], s[s.len() - 1]));
            }
        }
        assert forall|m: int| 0 <= m < s.len() && (#[trigger] s[m]).kind() == k implies has_origin(
            o2,
            s[m],
        ) by {
            if m < t.len() {
                assert(t[m] == s[m]);
                let x = choose|x: int| 0 <= x < o.len() && same_origin(o[x], t[m]);
                assert(o2[x] == o[x]);
            } else {
                assert(o2[o.len() as int] == s[m]);
                assert(same_origin(o2[o.len() as int], s[m]));
            }
        }
    }
}

/// Some decoration of `t` has the kind, local and hover text of `d`.
pub open spec fn has_origin(t: Seq<Deco>, d: Deco) -> bool {
    exists|x: int| 0 <= x < t.len() && same_origin(#[trigger] t[x], d)
}

proof fn lemma_has_origin_concat(a: Seq<Deco>, b: Seq<Deco>, d: Deco)
    ensures
        has_origin(a, d) ==> has_origin(a + b, d),
        has_origin(b, d) ==> has_origin(a + b, d),
{
    if has_origin(a, d) {
        let x = choose|x: int| 0 <= x < a.len() && same_origin(a[x], d);
        assert((a + b)[x] == a[x]);
    }
    if has_origin(b, d) {
        let x = choose|x: int| 0 <= x < b.len() && same_origin(b[x], d);
        assert((a + b)[a.len() + x] == b[x]);
    }
}

proof fn lemma_provenance_concat(a: Seq<Deco>, b: Seq<Deco>, s: Seq<Deco>)
    requires
        provenance(a, s),
        provenance(b, s),
    ensures
        provenance(a + b, s),
{
    let t = a + b;
    assert forall|k: int| 0 <= k < t.len() implies #[trigger] from_some(t[k], s) by {
        if k < a.len() {
            assert(t[k] == a[k]);
            assert(from_some(a[k], s));
        } else {
            assert(t[k] == b[k - a.len()]);
            assert(from_some(b[k - a.len()], s));
        }
    }
}

proof fn lemma_concat_sorted(a: Seq<Deco>, b: Seq<Deco>, k: int)
    requires
        kind_sorted(a),
        forall|x: int| 0 <= x < a.len() ==> (#[trigger] a[x]).kind() <= k,
        forall|y: int| 0 <= y < b.len() ==> (#[trigger] b[y]).kind() == k,
    ensures
        kind_sorted(a + b),
        forall|x: int| 0 <= x < (a + b).len() ==> (#[trigger] (a + b)[x]).kind() <= k,
{
    assert forall|x: int, y: int| 0 <= x < y < (a + b).len() implies (#[trigger] (a + b)[x]).kind()
        <= (#[trigger] (a + b)[y]).kind() by {
        if y < a.len() {
            assert((a + b)[x] == a[x] && (a + b)[y] == a[y]);
        } else if x < a.len() {
            assert((a + b)[x] == a[x] && (a + b)[y] == b[y - a.len()]);
        } else {
            assert((a + b)[x] == b[x - a.len()] && (a + b)[y] == b[y - a.len()]);
        }
    }
    assert forall|x: int| 0 <= x < (a + b).len() implies (#[trigger] (a + b)[x]).kind() <= k by {
        if x < a.len() {
            assert((a + b)[x] == a[x]);
        } else {
            assert((a + b)[x] == b[x - a.len()]);
        }
    }
}

proof fn lemma_sorted_by_kind_sorted(s: Seq<Deco>)
    ensures
        kind_sorted(sorted_by_kind(s)),
{
    let o0 = of_kind(s, 0);
    lemma_of_kind_members(s, 0);
    lemma_of_kind_members(s, 1);
    lemma_of_kind_members(s, 2);
    lemma_of_kind_members(s, 3);
    lemma_of_kind_members(s, 4);
    lemma_of_kind_members(s, 5);
    lemma_of_kind_members(s, 6);
    assert(kind_sorted(o0)) by {
        assert forall|x: int, y: int| 0 <= x < y < o0.len() implies (#[trigger] o0[x]).kind() <= (
        #[trigger] o0[y]).kind() by {
            assert(o0[x].kind() == 0 && o0[y].kind() == 0);
        }
    }
    lemma_concat_sorted(o0, of_kind(s, 1), 1);
    lemma_concat_sorted(o0 + of_kind(s, 1), of_kind(s, 2), 2);
    lemma_concat_sorted(o0 + of_kind(s, 1) + of_kind(s, 2), of_kind(s, 3), 3);
    lemma_concat_sorted(o0 + of_kind(s, 1) + of_kind(s, 2) + of_kind(s, 3), of_kind(s, 4), 4);
    lemma_concat_sorted(
        o0 + of_kind(s, 1) + of_kind(s, 2) + of_kind(s, 3) + of_kind(s, 4),
        of_kind(s, 5),
        5,
    );
    lemma_concat_sorted(
        o0 + of_kind(s, 1) + of_kind(s, 2) + of_kind(s, 3) + of_kind(s, 4) + of_kind(s, 5),
        of_kind(s, 6),
        6,
    );
}

proof fn lemma_sorted_by_kind_provenance(s: Seq<Deco>)
    ensures
        provenance(sorted_by_kind(s), s),
{
    lemma_of_kind_members(s, 0);
    lemma_of_kind_members(s, 1);
    lemma_of_kind_members(s, 2);
    lemma_of_kind_members(s, 3);
    lemma_of_kind_members(s, 4);
    lemma_of_kind_members(s, 5);
    lemma_of_kind_members(s, 6);
    let o0 = of_kind(s, 0);
    let o1 = of_kind(s, 1);
    let o2 = of_kind(s, 2);
    let o3 = of_kind(s, 3);
    let o4 = of_kind(s, 4);
    let o5 = of_kind(s, 5);
    let o6 = of_kind(s, 6);
    lemma_provenance_concat(o0, o1, s);
    lemma_provenance_concat(o0 + o1, o2, s);
    lemma_provenance_concat(o0 + o1 + o2, o3, s);
    lemma_provenance_concat(o0 + o1 + o2 + o3, o4, s);
    lemma_provenance_concat(o0 + o1 + o2 + o3 + o4, o5, s);
    lemma_provenance_concat(o0 + o1 + o2 + o3 + o4 + o5, o6, s);
}

proof fn lemma_sorted_by_kind_represented(s: Seq<Deco>)
    ensures
        represented(sorted_by_kind(s), s),
{
    let o0 = of_kind(s, 0);
    let o1 = of_kind(s, 1);
    let o2 = of_kind(s, 2);
    let o3 = of_kind(s, 3);
    let o4 = of_kind(s, 4);
    let o5 = of_kind(s, 5);
    let o6 = of_kind(s, 6);
    let t = sorted_by_kind(s);
    assert forall|m: int| 0 <= m < s.len() implies #[trigger] has_origin(t, s[m]) by {
        let d = s[m];
        let kd = d.kind();
        lemma_of_kind_members(s, kd);
        assert(has_origin(of_kind(s, kd), d));
        lemma_has_origin_concat(o0, o1, d);
        lemma_has_origin_concat(o0 + o1, o2, d);
        lemma_has_origin_concat(o0 + o1 + o2, o3, d);
        lemma_has_origin_concat(o0 + o1 + o2 + o3, o4, d);
        lemma_has_origin_concat(o0 + o1 + o2 + o3 + o4, o5, d);
        lemma_has_origin_concat(o0 + o1 + o2 + o3 + o4 + o5, o6, d);
    }
}

/// Sorting by kind keeps the decorations and orders them.
proof fn lemma_sorted_by_kind(s: Seq<Deco>)
    ensures
        overlap_inv(sorted_by_kind(s), s),
{
    lemma_sorted_by_kind_sorted(s);
    lemma_sorted_by_kind_provenance(s);
    lemma_sorted_by_kind_represented(s);
}

proof fn lemma_from_some_trans(x: Deco, y: Deco, s0: Seq<Deco>)
    requires
        descends(x, y),
        from_some(y, s0),
    ensures
        from_some(x, s0),
{
    let m = choose|m: int| 0 <= m < s0.len() && descends(y, s0[m]);
    assert(descends(x, s0[m]));
}

proof fn lemma_has_origin_at(t: Seq<Deco>, x: int, d: Deco)
    requires
        0 <= x < t.len(),
        same_origin(t[x], d),
    ensures
        has_origin(t, d),
{
}

/// Dropping decoration `i`, which agrees in every field with an earlier
/// one, keeps what the pass keeps.
proof fn lemma_remove_step(d: Seq<Deco>, s0: Seq<Deco>, i: int, j: int)
    requires
        overlap_inv(d, s0),
        0 <= j < i < d.len(),
        d[j].same_as(d[i]),
    ensures
        overlap_inv(d.remove(i), s0),
        weight(d.remove(i)) <= weight(d),
{
    let r = d.remove(i);
    assert forall|a: int, b: int| 0 <= a < b < r.len() implies (#[trigger] r[a]).kind() <= (
    #[trigger] r[b]).kind() by {
        let a1 = if a < i { a } else { a + 1 };
        let b1 = if b < i { b } else { b + 1 };
        assert(r[a] == d[a1] && r[b] == d[b1]);
    }
    assert forall|k: int| 0 <= k < r.len() implies #[trigger] from_some(r[k], s0) by {
        let k1 = if k < i { k } else { k + 1 };
        assert(r[k] == d[k1]);
        assert(from_some(d[k1], s0));
    }
    assert forall|m: int| 0 <= m < s0.len() implies #[trigger] has_origin(r, s0[m]) by {
        assert(has_origin(d, s0[m]));
        let x = choose|x: int| 0 <= x < d.len() && same_origin(d[x], s0[m]);
        if x < i {
            lemma_has_origin_at(r, x, s0[m]);
        } else if x > i {
            lemma_has_origin_at(r, x - 1, s0[m]);
        } else {
            lemma_has_origin_at(r, j, s0[m]);
        }
    }
    lemma_weight_remove(d, i);
    lemma_weight_nonneg(seq![d[i]]);
    lemma_weight_one(d[i]);
}

/// Marking decoration `i` overlapped keeps what the pass keeps and adds no
/// weight.
proof fn lemma_mark_step(d: Seq<Deco>, s0: Seq<Deco>, i: int, e: Deco)
    requires
        overlap_inv(d, s0),
        0 <= i < d.len(),
        e.is(d[i].kind(), d[i].local_of(), d[i].range_of(), d[i].text_of(), true),
    ensures
        overlap_inv(d.update(i, e), s0),
        weight(d.update(i, e)) <= weight(d),
{
    let r = d.update(i, e);
    assert forall|a: int, b: int| 0 <= a < b < r.len() implies (#[trigger] r[a]).kind() <= (
    #[trigger] r[b]).kind() by {
        assert(r[a].kind() == d[a].kind() && r[b].kind() == d[b].kind());
    }
    assert forall|k: int| 0 <= k < r.len() implies #[trigger] from_some(r[k], s0) by {
        assert(from_some(d[k], s0));
        lemma_from_some_trans(r[k], d[k], s0);
    }
    assert forall|m: int| 0 <= m < s0.len() implies #[trigger] has_origin(r, s0[m]) by {
        assert(has_origin(d, s0[m]));
        let x = choose|x: int| 0 <= x < d.len() && same_origin(d[x], s0[m]);
        lemma_has_origin_at(r, x, s0[m]);
    }
    lemma_weight_update(d, i, e);
}

/// Replacing decoration `j` by one marked overlapped within its range,
/// followed by the pieces `p` cut from it, keeps what the pass keeps and
/// takes weight off.
proof fn lemma_split_step(d: Seq<Deco>, s0: Seq<Deco>, j: int, e: Deco, p: Seq<Deco>)
    requires
        overlap_inv(d, s0),
        0 <= j < d.len(),
        descends(e, d[j]),
        e.overlapped_of(),
        !d[j].overlapped_of(),
        forall|k: int| 0 <= k < p.len() ==> descends(#[trigger] p[k], d[j]),
        weight(p) < range_len(d[j].range_of()),
    ensures
        overlap_inv(d.take(j) + seq![e] + p + d.skip(j + 1), s0),
        weight(d.take(j) + seq![e] + p + d.skip(j + 1)) < weight(d),
{
    let r = d.take(j) + seq![e] + p + d.skip(j + 1);
    let n = p.len();
    assert forall|k: int| 0 <= k < r.len() implies (k < j ==> r[k] == d[k]) && (k == j ==> r[k]
        == e) && (j < k <= j + n ==> r[k] == p[k - j - 1]) && (j + n < k ==> r[k] == d[k - n]) by {
    }
    assert forall|a: int, b: int| 0 <= a < b < r.len() implies (#[trigger] r[a]).kind() <= (
    #[trigger] r[b]).kind() by {
        let a1 = if a <= j { a } else if a <= j + n { j } else { a - n };
        let b1 = if b <= j { b } else if b <= j + n { j } else { b - n };
        assert(r[a].kind() == d[a1].kind());
        assert(r[b].kind() == d[b1].kind());
        if a1 < b1 {
            assert(d[a1].kind() <= d[b1].kind());
        }
    }
    assert forall|k: int| 0 <= k < r.len() implies #[trigger] from_some(r[k], s0) by {
        let k1 = if k <= j { k } else if k <= j + n { j } else { k - n };
        assert(from_some(d[k1], s0));
        if k == j {
            lemma_from_some_trans(e, d[j], s0);
        } else if j < k <= j + n {
            assert(descends(p[k - j - 1], d[j]));
            lemma_from_some_trans(r[k], d[j], s0);
        }
    }
    assert forall|m: int| 0 <= m < s0.len() implies #[trigger] has_origin(r, s0[m]) by {
        assert(has_origin(d, s0[m]));
        let x = choose|x: int| 0 <= x < d.len() && same_origin(d[x], s0[m]);
        if x <= j {
            lemma_has_origin_at(r, x, s0[m]);
        } else {
            lemma_has_origin_at(r, x + n, s0[m]);
        }
    }
    lemma_weight_split(d, j);
    lemma_weight_concat(d.take(j) + seq![e] + p, d.skip(j + 1));
    lemma_weight_concat(d.take(j) + seq![e], p);
    lemma_weight_concat(d.take(j), seq![e]);
    lemma_weight_one(e);
}

/// Marks decoration `i` of `v` as overlapped, keeping its other fields.
fn mark_overlapped(v: &mut Vec<Deco>, i: usize)
    requires
        i < old(v).len(),
    ensures
        final(v)@ == old(v)@.update(i as int, final(v)@[i as int]),
        final(v)@[i as int].is(
            old(v)@[i as int].kind(),
            old(v)@[i as int].local_of(),
            old(v)@[i as int].range_of(),
            old(v)@[i as int].text_of(),
            true,
        ),
{
    let range = *v[i].parts().2;
    let d = v.remove(i);
    v.insert(i, reshaped(d, range, true));
    proof {
        assert(v@ =~= old(v)@.update(i as int, v@[i as int]));
    }
}

/// Cuts decoration `j` of `v` down to `common`, marked overlapped, and puts
/// after it one decoration per range of `pieces`, with its kind, local and
/// hover text and not overlapped.
fn split_deco(v: &mut Vec<Deco>, j: usize, common: Range, pieces: &Vec<Range>)
    requires
        j < old(v).len(),
    ensures
        final(v)@ == old(v)@.take(j as int) + seq![final(v)@[j as int]] + final(v)@.subrange(
            j + 1,
            j + 1 + pieces@.len(),
        ) + old(v)@.skip(j + 1),
        final(v)@[j as int].is(
            old(v)@[j as int].kind(),
            old(v)@[j as int].local_of(),
            common,
            old(v)@[j as int].text_of(),
            true,
        ),
        pieces_of(final(v)@.subrange(j + 1, j + 1 + pieces@.len()), pieces@, old(v)@[j as int]),
{
    let ghost v0 = v@;
    let (kind, local, _, text, _) = v[j].parts();
    let text = text.clone();
    let d = v.remove(j);
    v.insert(j, reshaped(d, common, true));
    let ghost e = v@[j as int];
    let mut k: usize = 0;
    proof {
        assert(v@ =~= v0.take(j as int) + seq![e] + v@.subrange(j + 1, j + 1 + k) + v0.skip(j + 1));
    }
    while k < pieces.len()
        invariant
            j < v0.len(),
            k <= pieces.len(),
            v@.len() == v0.len() + k,
            v@[j as int] == e,
            v@ == v0.take(j as int) + seq![e] + v@.subrange(j + 1, j + 1 + k) + v0.skip(j + 1),
            pieces_of(v@.subrange(j + 1, j + 1 + k), pieces@.take(k as int), v0[j as int]),
            kind == v0[j as int].kind(),
            local == v0[j as int].local_of(),
            text@ == v0[j as int].text_of(),
        decreases pieces.len() - k,
    {
        let ghost before = v@;
        let nd = Deco::with_kind(kind, local, pieces[k], text.clone(), false);
        // The place right after the pieces inserted so far is at most the
        // length, which a `usize` holds.
        let len = v.len();
        assert(j + 1 + k <= len);
        v.insert(j + 1 + k, nd);
        proof {
            let mid = before.subrange(j + 1, j + 1 + k);
            assert(v@.subrange(j + 1, j + 2 + k) =~= mid.push(nd));
            assert(v@ =~= v0.take(j as int) + seq![e] + v@.subrange(j + 1, j + 2 + k) + v0.skip(
                j + 1,
            ));
            assert(pieces@.take(k + 1) =~= pieces@.take(k as int).push(pieces@[k as int]));
            assert forall|t: int| 0 <= t < k + 1 implies (#[trigger] v@.subrange(
                j + 1,
                j + 2 + k,
            )[t]).is(
                v0[j as int].kind(),
                v0[j as int].local_of(),
                pieces@.take(k + 1)[t],
                v0[j as int].text_of(),
                false,
            ) by {
                if t < k {
                    assert(v@.subrange(j + 1, j + 2 + k)[t] == mid[t]);
                }
            }
        }
        k = k + 1;
    }
    proof {
        assert(pieces@.take(k as int) =~= pieces@);
    }
}

pub open spec fn weight_by_kind(s: Seq<Deco>) -> int {
    weight(of_kind(s, 0)) + weight(of_kind(s, 1)) + weight(of_kind(s, 2)) + weight(of_kind(s, 3))
        + weight(of_kind(s, 4)) + weight(of_kind(s, 5)) + weight(of_kind(s, 6))
}

proof fn lemma_weight_push(s: Seq<Deco>, d: Deco)
    ensures
        weight(s.push(d)) == weight(s) + deco_weight(d),
{
    assert(s.push(d).drop_last() =~= s);
}

proof fn lemma_weight_by_kind(s: Seq<Deco>)
    ensures
        weight(s) == weight_by_kind(s),
    decreases s.len(),
{
    if s.len() == 0 {
        assert(weight_by_kind(s) == 0);
    } else {
        let t = s.drop_last();
        let x = s.last();
        lemma_weight_by_kind(t);
        lemma_weight_push(of_kind(t, x.kind()), x);
    }
}

/// Sorting by kind keeps the weight.
proof fn lemma_weight_sorted(s: Seq<Deco>)
    ensures
        weight(sorted_by_kind(s)) == weight(s),
{
    lemma_weight_by_kind(s);
    let o0 = of_kind(s, 0);
    let o1 = of_kind(s, 1);
    let o2 = of_kind(s, 2);
    let o3 = of_kind(s, 3);
    let o4 = of_kind(s, 4);
    let o5 = of_kind(s, 5);
    let o6 = of_kind(s, 6);
    lemma_weight_concat(o0, o1);
    lemma_weight_concat(o0 + o1, o2);
    lemma_weight_concat(o0 + o1 + o2, o3);
    lemma_weight_concat(o0 + o1 + o2 + o3, o4);
    lemma_weight_concat(o0 + o1 + o2 + o3 + o4, o5);
    lemma_weight_concat(o0 + o1 + o2 + o3 + o4 + o5, o6);
}

/// Sorting by kind keeps the number of decorations.
proof fn lemma_len_sorted(s: Seq<Deco>)
    ensures
        sorted_by_kind(s).len() == s.len(),
    decreases s.len(),
{
    if s.len() > 0 {
        lemma_len_sorted(s.drop_last());
    }
}

proof fn lemma_weight_bound(s: Seq<Deco>)
    ensures
        weight(s) <= s.len() * 0x1_0000_0000,
    decreases s.len(),
{
    if s.len() > 0 {
        lemma_weight_bound(s.drop_last());
        crate::models::lemma_range_bounds(s.last().range_of());
        assert(deco_weight(s.last()) <= 0x1_0000_0000);
    }
}


/// Once the cursor's variable is chosen by its declaration, a move, borrow or
/// call offered after it does not displace it.
pub proof fn law_var_selection_is_kept(
    local0: FnLocal,
    range0: Range,
    reason: SelectReason,
    local: FnLocal,
    range: Range,
    pos: Loc,
    candidates: Seq<FnLocal>,
)
    requires
        reason != SelectReason::Var,
    ensures
        select_rule(Some((SelectReason::Var, local0, range0)), reason, local, range, pos, candidates)
            == Some((SelectReason::Var, local0, range0)),
{
}

/// A selection is only ever replaced by one with a strictly narrower range:
/// an offer whose range is as wide as the selected one or wider leaves the
/// selection as it is, whatever the reason.
pub proof fn law_selection_only_narrows(
    prev: Option<(SelectReason, FnLocal, Range)>,
    reason: SelectReason,
    local: FnLocal,
    range: Range,
    pos: Loc,
    candidates: Seq<FnLocal>,
)
    requires
        prev is Some,
        range.hi() - range.lo() >= prev.unwrap().2.hi() - prev.unwrap().2.lo(),
    ensures
        select_rule(prev, reason, local, range, pos, candidates) == prev,
{
}

/// After an offer the selection is what it was or the offer itself, and an
/// offer of a candidate whose range holds the cursor is taken when nothing
/// is selected yet.
pub proof fn law_selection_is_old_or_offer(
    prev: Option<(SelectReason, FnLocal, Range)>,
    reason: SelectReason,
    local: FnLocal,
    range: Range,
    pos: Loc,
    candidates: Seq<FnLocal>,
)
    ensures
        select_rule(prev, reason, local, range, pos, candidates) == prev || select_rule(
            prev,
            reason,
            local,
            range,
            pos,
            candidates,
        ) == Some((reason, local, range)),
        prev is None && candidates.contains(local) && range.lo() <= pos.0 <= range.hi() ==> select_rule(
            prev,
            reason,
            local,
            range,
            pos,
            candidates,
        ) == Some((reason, local, range)),
{
}

/// Decoration view `d` is of kind `k` for local `l` and holds position `x`.
pub open spec fn covers_view(d: DecoView, k: int, l: FnLocal, x: int) -> bool {
    d.0 == k && d.1 == l && d.2 <= x < d.3
}

/// Some decoration of `t` of kind `k` for local `l` holds position `x`.
pub open spec fn kind_covers(t: Seq<DecoView>, k: int, l: FnLocal, x: int) -> bool {
    exists|m: int| 0 <= m < t.len() && #[trigger] covers_view(t[m], k, l, x)
}

proof fn lemma_split_at_covers(s: Seq<DecoView>, j: int, c_lo: int, c_hi: int)
    requires
        0 <= j < s.len(),
        s[j].2 <= c_lo < c_hi <= s[j].3,
    ensures
        forall|k: int, l: FnLocal, x: int|
            #[trigger] kind_covers(split_at(s, j, c_lo, c_hi), k, l, x) == kind_covers(s, k, l, x),
{
    let d = s[j];
    let r = split_at(s, j, c_lo, c_hi);
    let pb = split_bounds(d.2, d.3, c_lo, c_hi);
    let p = pb.len() as int;
    if d.2 < c_lo {
        if c_hi < d.3 {
            assert(pb =~= seq![(d.2, c_lo), (c_hi, d.3)]);
        } else {
            assert(pb =~= seq![(d.2, c_lo)]);
        }
    } else {
        if c_hi < d.3 {
            assert(pb =~= seq![(c_hi, d.3)]);
        } else {
            assert(pb =~= Seq::<(int, int)>::empty());
        }
    }
    assert(r.len() == s.len() + p);
    assert forall|m: int| 0 <= m < j implies r[m] == s[m] by {}
    assert(r[j] == (d.0, d.1, c_lo, c_hi, d.4, true));
    assert forall|q: int| 0 <= q < p implies #[trigger] r[j + 1 + q] == (d.0, d.1, pb[q].0, pb[q].1, d.4, false) by {}
    assert forall|q: int| 0 <= q < s.len() - j - 1 implies #[trigger] r[j + 1 + p + q] == s[j + 1 + q] by {}
    assert forall|k: int, l: FnLocal, x: int| #[trigger] kind_covers(r, k, l, x) == kind_covers(s, k, l, x) by {
        if kind_covers(r, k, l, x) {
            let m = choose|m: int| 0 <= m < r.len() && #[trigger] covers_view(r[m], k, l, x);
            if m < j {
                assert(covers_view(s[m], k, l, x));
            } else if m <= j + p {
                if m > j {
                    assert(r[j + 1 + (m - j - 1)] == (d.0, d.1, pb[m - j - 1].0, pb[m - j - 1].1, d.4, false));
                }
                assert(covers_view(s[j], k, l, x));
            } else {
                let q = m - j - 1 - p;
                assert(r[j + 1 + p + q] == s[j + 1 + q]);
                assert(covers_view(s[j + 1 + q], k, l, x));
            }
        }
        if kind_covers(s, k, l, x) {
            let m = choose|m: int| 0 <= m < s.len() && #[trigger] covers_view(s[m], k, l, x);
            if m < j {
                assert(covers_view(r[m], k, l, x));
            } else if m == j {
                if c_lo <= x < c_hi {
                    assert(covers_view(r[j], k, l, x));
                } else if x < c_lo {
                    assert(r[j + 1 + 0] == (d.0, d.1, pb[0].0, pb[0].1, d.4, false));
                    assert(covers_view(r[j + 1], k, l, x));
                } else {
                    assert(r[j + 1 + (p - 1)] == (d.0, d.1, pb[p - 1].0, pb[p - 1].1, d.4, false));
                    assert(covers_view(r[j + p], k, l, x));
                }
            } else {
                let q = m - j - 1;
                assert(r[j + 1 + p + q] == s[m]);
                assert(covers_view(r[j + 1 + p + q], k, l, x));
            }
        }
    }
}

proof fn lemma_overlap_inner_covers(s: Seq<DecoView>, i: int, j: int, lo: int, hi: int)
    ensures
        forall|k: int, l: FnLocal, x: int|
            #[trigger] kind_covers(overlap_inner(s, i, j, lo, hi).0, k, l, x) == kind_covers(s, k, l, x),
    decreases i - j,
{
    if j < 0 || j >= i || i >= s.len() {
    } else if s[j] == s[i] {
        let r = s.remove(i);
        assert forall|k: int, l: FnLocal, x: int| #[trigger] kind_covers(r, k, l, x) == kind_covers(s, k, l, x) by {
            if kind_covers(r, k, l, x) {
                let m = choose|m: int| 0 <= m < r.len() && #[trigger] covers_view(r[m], k, l, x);
                if m < i {
                    assert(covers_view(s[m], k, l, x));
                } else {
                    assert(covers_view(s[m + 1], k, l, x));
                }
            }
            if kind_covers(s, k, l, x) {
                let m = choose|m: int| 0 <= m < s.len() && #[trigger] covers_view(s[m], k, l, x);
                if m < i {
                    assert(covers_view(r[m], k, l, x));
                } else if m == i {
                    assert(covers_view(r[j], k, l, x));
                } else {
                    assert(covers_view(r[m - 1], k, l, x));
                }
            }
        }
        assert(overlap_inner(s, i, j, lo, hi).0 == r);
    } else if !s[j].5 && max(lo, s[j].2) < min(hi, s[j].3) {
        let s1 = s.update(i, marked(s[i]));
        let c_lo = max(lo, s[j].2);
        let c_hi = min(hi, s[j].3);
        assert forall|k: int, l: FnLocal, x: int| #[trigger] kind_covers(s1, k, l, x) == kind_covers(s, k, l, x) by {
            if kind_covers(s1, k, l, x) {
                let m = choose|m: int| 0 <= m < s1.len() && #[trigger] covers_view(s1[m], k, l, x);
                assert(covers_view(s[m], k, l, x));
            }
            if kind_covers(s, k, l, x) {
                let m = choose|m: int| 0 <= m < s.len() && #[trigger] covers_view(s[m], k, l, x);
                assert(covers_view(s1[m], k, l, x));
            }
        }
        assert(s1[j] == s[j]);
        let s2 = split_at(s1, j, c_lo, c_hi);
        lemma_split_at_covers(s1, j, c_lo, c_hi);
        lemma_overlap_inner_covers(s2, i, j + 1, lo, hi);
        assert(overlap_inner(s, i, j, lo, hi) == overlap_inner(s2, i, j + 1, lo, hi));
        assert forall|k: int, l: FnLocal, x: int|
            #[trigger] kind_covers(overlap_inner(s, i, j, lo, hi).0, k, l, x) == kind_covers(s, k, l, x) by {
            assert(kind_covers(overlap_inner(s2, i, j + 1, lo, hi).0, k, l, x) == kind_covers(s2, k, l, x));
            assert(kind_covers(s2, k, l, x) == kind_covers(s1, k, l, x));
            assert(kind_covers(s1, k, l, x) == kind_covers(s, k, l, x));
        }
    } else {
        lemma_overlap_inner_covers(s, i, j + 1, lo, hi);
        assert(overlap_inner(s, i, j, lo, hi) == overlap_inner(s, i, j + 1, lo, hi));
    }
}

proof fn lemma_overlap_rounds_covers(s: Seq<DecoView>, i: int, fuel: nat)
    requires
        overlap_rounds(s, i, fuel) is Some,
    ensures
        forall|k: int, l: FnLocal, x: int|
            #[trigger] kind_covers(overlap_rounds(s, i, fuel)->0, k, l, x) == kind_covers(s, k, l, x),
    decreases fuel,
{
    if 0 <= i < s.len() && fuel > 0 {
        let (s2, dropped) = overlap_inner(s, i, 0, s[i].2, s[i].3);
        lemma_overlap_inner_covers(s, i, 0, s[i].2, s[i].3);
        lemma_overlap_rounds_covers(s2, if dropped { i } else { i + 1 }, (fuel - 1) as nat);
    }
}

proof fn lemma_of_kind_contains(s: Seq<Deco>, k: int)
    ensures
        forall|x: int| 0 <= x < of_kind(s, k).len() ==> s.contains(#[trigger] of_kind(s, k)[x]),
        forall|m: int| 0 <= m < s.len() && (#[trigger] s[m]).kind() == k ==> of_kind(s, k).contains(s[m]),
    decreases s.len(),
{
    if s.len() > 0 {
        let t = s.drop_last();
        lemma_of_kind_contains(t, k);
        let o = of_kind(t, k);
        let o2 = of_kind(s, k);
        assert forall|x: int| 0 <= x < o2.len() implies s.contains(#[trigger] o2[x]) by {
            if x < o.len() {
                assert(o2[x] == o[x]);
                let m = choose|m: int| 0 <= m < t.len() && t[m] == o[x];
                assert(s[m] == t[m]);
            } else {
                assert(o2[x] == s[s.len() - 1]);
            }
        }
        assert forall|m: int| 0 <= m < s.len() && (#[trigger] s[m]).kind() == k implies o2.contains(s[m]) by {
            if m < t.len() {
                assert(t[m] == s[m]);
                let x = choose|x: int| 0 <= x < o.len() && o[x] == t[m];
                assert(o2[x] == o[x]);
            } else {
                assert(o2[o.len() as int] == s[m]);
            }
        }
    }
}

proof fn lemma_contains_concat(a: Seq<Deco>, b: Seq<Deco>)
    ensures
        forall|e: Deco| #[trigger] (a + b).contains(e) <==> a.contains(e) || b.contains(e),
{
    assert forall|e: Deco| #[trigger] (a + b).contains(e) <==> a.contains(e) || b.contains(e) by {
        if (a + b).contains(e) {
            let m = choose|m: int| 0 <= m < (a + b).len() && (a + b)[m] == e;
            if m < a.len() {
                assert(a[m] == e);
            } else {
                assert(b[m - a.len()] == e);
            }
        }
        if a.contains(e) {
            let m = choose|m: int| 0 <= m < a.len() && a[m] == e;
            assert((a + b)[m] == e);
        }
        if b.contains(e) {
            let m = choose|m: int| 0 <= m < b.len() && b[m] == e;
            assert((a + b)[m + a.len()] == e);
        }
    }
}

proof fn lemma_dviews_covers_within(a: Seq<Deco>, b: Seq<Deco>)
    requires
        forall|e: Deco| a.contains(e) ==> b.contains(e),
    ensures
        forall|k: int, l: FnLocal, x: int| #[trigger] kind_covers(dviews(a), k, l, x) ==> kind_covers(dviews(b), k, l, x),
{
    assert forall|k: int, l: FnLocal, x: int| #[trigger] kind_covers(dviews(a), k, l, x) implies kind_covers(dviews(b), k, l, x) by {
        let m = choose|m: int| 0 <= m < dviews(a).len() && #[trigger] covers_view(dviews(a)[m], k, l, x);
        assert(a.contains(a[m]));
        let n = choose|n: int| 0 <= n < b.len() && b[n] == a[m];
        assert(covers_view(dviews(b)[n], k, l, x));
    }
}

proof fn lemma_sorted_by_kind_same(s: Seq<Deco>)
    ensures
        forall|e: Deco| #[trigger] sorted_by_kind(s).contains(e) <==> s.contains(e),
{
    let o0 = of_kind(s, 0);
    let o1 = of_kind(s, 1);
    let o2 = of_kind(s, 2);
    let o3 = of_kind(s, 3);
    let o4 = of_kind(s, 4);
    let o5 = of_kind(s, 5);
    let o6 = of_kind(s, 6);
    lemma_of_kind_contains(s, 0);
    lemma_of_kind_contains(s, 1);
    lemma_of_kind_contains(s, 2);
    lemma_of_kind_contains(s, 3);
    lemma_of_kind_contains(s, 4);
    lemma_of_kind_contains(s, 5);
    lemma_of_kind_contains(s, 6);
    lemma_contains_concat(o0, o1);
    lemma_contains_concat(o0 + o1, o2);
    lemma_contains_concat(o0 + o1 + o2, o3);
    lemma_contains_concat(o0 + o1 + o2 + o3, o4);
    lemma_contains_concat(o0 + o1 + o2 + o3 + o4, o5);
    lemma_contains_concat(o0 + o1 + o2 + o3 + o4 + o5, o6);
    assert forall|e: Deco| #[trigger] sorted_by_kind(s).contains(e) <==> s.contains(e) by {
        if sorted_by_kind(s).contains(e) {
            if o0.contains(e) {
                let x = choose|x: int| 0 <= x < o0.len() && o0[x] == e;
                assert(s.contains(o0[x]));
            } else if o1.contains(e) {
                let x = choose|x: int| 0 <= x < o1.len() && o1[x] == e;
                assert(s.contains(o1[x]));
            } else if o2.contains(e) {
                let x = choose|x: int| 0 <= x < o2.len() && o2[x] == e;
                assert(s.contains(o2[x]));
            } else if o3.contains(e) {
                let x = choose|x: int| 0 <= x < o3.len() && o3[x] == e;
                assert(s.contains(o3[x]));
            } else if o4.contains(e) {
                let x = choose|x: int| 0 <= x < o4.len() && o4[x] == e;
                assert(s.contains(o4[x]));
            } else if o5.contains(e) {
                let x = choose|x: int| 0 <= x < o5.len() && o5[x] == e;
                assert(s.contains(o5[x]));
            } else {
                let x = choose|x: int| 0 <= x < o6.len() && o6[x] == e;
                assert(s.contains(o6[x]));
            }
        }
        if s.contains(e) {
            let m = choose|m: int| 0 <= m < s.len() && s[m] == e;
            let k = s[m].kind();
            assert(0 <= k <= 6);
        }
    }
}

/// The overlap pass loses no position and adds none: for each kind and
/// local, the positions held by the decorations of that kind for that local
/// are the same after the pass as before it. A decoration cut down to where
/// it meets another keeps the rest of its range in the pieces that follow
/// it.
pub proof fn law_overlap_keeps_coverage(s: Seq<Deco>, r: Seq<DecoView>, k: int, l: FnLocal, x: int)
    requires
        overlap_result(s, r),
    ensures
        kind_covers(r, k, l, x) == kind_covers(dviews(s), k, l, x),
{
    let t = dviews(sorted_by_kind(s));
    let n = choose|n: nat| overlap_rounds(t, 1, n) == Some(r);
    lemma_overlap_rounds_covers(t, 1, n);
    lemma_sorted_by_kind_same(s);
    lemma_dviews_covers_within(sorted_by_kind(s), s);
    lemma_dviews_covers_within(s, sorted_by_kind(s));
    assert(overlap_rounds(t, 1, n)->0 == r);
    assert(kind_covers(overlap_rounds(t, 1, n)->0, k, l, x) == kind_covers(t, k, l, x));
    assert(kind_covers(t, k, l, x) ==> kind_covers(dviews(s), k, l, x));
    assert(kind_covers(dviews(s), k, l, x) ==> kind_covers(t, k, l, x));
}

/// A strictly narrower offer of a candidate whose range holds the cursor
/// replaces the selection: a declaration always does; a move or a borrow
/// does unless a declaration is selected; a call does where a call is
/// selected.
pub proof fn law_narrower_offer_taken(
    prev: Option<(SelectReason, FnLocal, Range)>,
    reason: SelectReason,
    local: FnLocal,
    range: Range,
    pos: Loc,
    candidates: Seq<FnLocal>,
)
    requires
        prev is Some,
        candidates.contains(local),
        range.lo() <= pos.0 <= range.hi(),
        range.hi() - range.lo() < prev.unwrap().2.hi() - prev.unwrap().2.lo(),
        reason == SelectReason::Var || (prev.unwrap().0 != SelectReason::Var && (reason
            == SelectReason::Move || reason == SelectReason::Borrow || (reason == SelectReason::Call
            && prev.unwrap().0 == SelectReason::Call))),
    ensures
        select_rule(prev, reason, local, range, pos, candidates) == Some((reason, local, range)),
{
}

/// An offer of a local that is not a candidate, or whose range does not hold
/// the cursor, changes nothing.
pub proof fn law_offer_off_cursor_ignored(
    prev: Option<(SelectReason, FnLocal, Range)>,
    reason: SelectReason,
    local: FnLocal,
    range: Range,
    pos: Loc,
    candidates: Seq<FnLocal>,
)
    requires
        !candidates.contains(local) || !(range.lo() <= pos.0 <= range.hi()),
    ensures
        select_rule(prev, reason, local, range, pos, candidates) == prev,
{
}

} // verus!
