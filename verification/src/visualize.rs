//! Showing a variable's ownership and lifetimes in the terminal: finding
//! the variable, working out its decorations, and laying out the underlines
//! under the source lines.

use crate::decoration::{CalcDecos, Deco, dviews, overlap_inv, overlap_result};
use crate::maps::{files_get_index, files_len};
use crate::models::{first_index, lemma_first_index, Crate, File, FnLocal, Function, MirDecl, MirStatement, MirTerminator, Range};
use crate::utils::{MirVisitor, passes, visit_all};
use crate::decoration::position_at;
use crate::text::{decimal, push_decimal};
use vstd::prelude::*;
use vstd::string::StrSliceExecFns;
use vstd::utf8::encode_utf8;

verus! {

/// What can go wrong when showing a variable.
#[derive(Clone, Debug)]
pub enum VisualizeError {
    FileNotFound(String),
    FunctionNotFound(String),
    VariableNotFound(String),
    SourceReadError(String),
}

impl VisualizeError {
    /// The message that describes the error.
    pub fn message(&self) -> (r: String)
        ensures
            r@ == match self {
                VisualizeError::FileNotFound(p) => "File not found: "@ + p@,
                VisualizeError::FunctionNotFound(n) => "Function not found: "@ + n@,
                VisualizeError::VariableNotFound(n) => "Variable not found: "@ + n@,
                VisualizeError::SourceReadError(e) => "Failed to read source file: "@ + e@,
            },
    {
        let (mut s, t) = match self {
            VisualizeError::FileNotFound(p) => ("File not found: ".to_owned(), p),
            VisualizeError::FunctionNotFound(n) => ("Function not found: ".to_owned(), n),
            VisualizeError::VariableNotFound(n) => ("Variable not found: ".to_owned(), n),
            VisualizeError::SourceReadError(e) => ("Failed to read source file: ".to_owned(), e),
        };
        s.append(t.as_str());
        s
    }
}

/// A variable that was found: its local, name, declaration span, and the
/// function it belongs to.
#[derive(Clone, Debug)]
pub struct VariableInfo {
    pub local: FnLocal,
    pub name: String,
    pub span: Range,
    pub function_name: String,
}

/// `suf` ends `s`.
pub open spec fn ends_with(s: Seq<char>, suf: Seq<char>) -> bool {
    suf.len() <= s.len() && s.subrange(s.len() - suf.len(), s.len() as int) == suf
}

fn chars_of(s: &str) -> (r: Vec<char>)
    ensures
        r@ == s@,
{
    let mut v: Vec<char> = Vec::new();
    for c in it: s.chars()
        invariant
            it.seq() == s@,
            v@ == s@.take(it.index() as int),
    {
        v.push(c);
        proof {
            assert(v@ =~= s@.take(it.index() + 1));
        }
    }
    proof {
        assert(s@.take(s@.len() as int) =~= s@);
    }
    v
}

/// Whether `suf` ends `s`.
pub fn str_ends_with(s: &str, suf: &str) -> (r: bool)
    ensures
        r == ends_with(s@, suf@),
{
    let a = chars_of(s);
    let b = chars_of(suf);
    if b.len() > a.len() {
        return false;
    }
    let off = a.len() - b.len();
    let n = a.len();
    let mut i: usize = 0;
    while i < b.len()
        invariant
            a@ == s@,
            b@ == suf@,
            n == a@.len(),
            b@.len() <= a@.len(),
            off == a@.len() - b@.len(),
            i <= b@.len(),
            forall|k: int| 0 <= k < i ==> a@[off + k] == #[trigger] b@[k],
        decreases b@.len() - i,
    {
        if a[off + i] != b[i] {
            proof {
                assert(a@.subrange(off as int, a@.len() as int)[i as int] != b@[i as int]);
            }
            return false;
        }
        i = i + 1;
    }
    proof {
        assert(a@.subrange(off as int, a@.len() as int) =~= b@);
    }
    true
}

/// Function name `name` is `function_name`, or a path that ends in
/// `::function_name`.
pub open spec fn names_function(name: Seq<char>, function_name: Seq<char>) -> bool {
    name == function_name || ends_with(name, "::"@ + function_name)
}

/// Looks for the user variables named `variable_name` in the functions named
/// `function_name`.
#[derive(Clone, Debug)]
pub struct FindVariablesByName {
    pub function_name: String,
    pub variable_name: String,
    pub current_function_name: String,
    pub found: Vec<VariableInfo>,
}

impl FindVariablesByName {
    pub fn new(function_name: &str, variable_name: &str) -> (r: Self)
        ensures
            r.function_name@ == function_name@,
            r.variable_name@ == variable_name@,
            r.current_function_name@.len() == 0,
            r.found@.len() == 0,
    {
        Self {
            function_name: function_name.to_owned(),
            variable_name: variable_name.to_owned(),
            current_function_name: String::new(),
            found: Vec::new(),
        }
    }

    /// Whether `name` is the function looked for, alone or at the end of a
    /// path.
    pub fn matches_function(&self, name: &str) -> (r: bool)
        ensures
            r == names_function(name@, self.function_name@),
    {
        let mut suffix = "::".to_owned();
        suffix.append(self.function_name.as_str());
        name.to_owned() == self.function_name || str_ends_with(name, suffix.as_str())
    }
}

/// The finder's state after `decl`: a user variable of the looked-for name,
/// in a function of the looked-for name, is added to what was found.
pub open spec fn found_after(v: FindVariablesByName, decl: MirDecl) -> Seq<VariableInfo> {
    match decl {
        MirDecl::User { local, name, span, .. } => if names_function(
            v.current_function_name@,
            v.function_name@,
        ) && name@ == v.variable_name@ {
            v.found@.push(
                VariableInfo { local, name, span, function_name: v.current_function_name },
            )
        } else {
            v.found@
        },
        MirDecl::Other { .. } => v.found@,
    }
}

impl MirVisitor for FindVariablesByName {
    /// Entering a function records its name.
    open spec fn func_step(self, func: Function, next: Self) -> bool {
        &&& next.function_name == self.function_name
        &&& next.variable_name == self.variable_name
        &&& next.current_function_name@ == func.name@
        &&& next.found@ == self.found@
    }

    open spec fn decl_step(self, decl: MirDecl, next: Self) -> bool {
        &&& next.function_name == self.function_name
        &&& next.variable_name == self.variable_name
        &&& next.current_function_name == self.current_function_name
        &&& next.found@.len() == found_after(self, decl).len()
        &&& forall|k: int|
            0 <= k < next.found@.len() ==> {
                &&& (#[trigger] next.found@[k]).local == found_after(self, decl)[k].local
                &&& next.found@[k].name@ == found_after(self, decl)[k].name@
                &&& next.found@[k].span == found_after(self, decl)[k].span
                &&& next.found@[k].function_name@ == found_after(self, decl)[k].function_name@
            }
    }

    open spec fn stmt_step(self, stmt: MirStatement, next: Self) -> bool {
        next == self
    }

    open spec fn term_step(self, term: MirTerminator, next: Self) -> bool {
        next == self
    }

    fn visit_func(&mut self, func: &Function) {
        self.current_function_name = func.name.clone();
    }

    fn visit_decl(&mut self, decl: &MirDecl) {
        let ghost before = *self;
        if !self.matches_function(self.current_function_name.as_str()) {
            return ;
        }
        if let MirDecl::User { local, name, span, .. } = decl {
            if name.clone() == self.variable_name {
                self.found.push(
                    VariableInfo {
                        local: *local,
                        name: name.clone(),
                        span: *span,
                        function_name: self.current_function_name.clone(),
                    },
                );
            }
        }
    }

    fn visit_stmt(&mut self, stmt: &MirStatement) {
    }

    fn visit_term(&mut self, term: &MirTerminator) {
    }
}

/// The kind of underline drawn for a decoration.
#[derive(Clone, Copy, PartialEq, Eq, Debug, Structural)]
pub enum DecoType {
    Lifetime,
    ImmBorrow,
    MutBorrow,
    Move,
    Call,
    SharedMut,
    Outlive,
}

impl DecoType {
    /// The terminal colour of the underline.
    pub fn color(&self) -> (r: &'static str)
        ensures
            r@ == match self {
                DecoType::Lifetime => "\x1b[32m"@,
                DecoType::ImmBorrow => "\x1b[34m"@,
                DecoType::MutBorrow => "\x1b[35m"@,
                DecoType::Move => "\x1b[33m"@,
                DecoType::Call => "\x1b[33m"@,
                DecoType::SharedMut => "\x1b[31m"@,
                DecoType::Outlive => "\x1b[31m"@,
            },
    {
        match self {
            DecoType::Lifetime => "\x1b[32m",
            DecoType::ImmBorrow => "\x1b[34m",
            DecoType::MutBorrow => "\x1b[35m",
            DecoType::Move => "\x1b[33m",
            DecoType::Call => "\x1b[33m",
            DecoType::SharedMut => "\x1b[31m",
            DecoType::Outlive => "\x1b[31m",
        }
    }

    /// The name shown next to the underline.
    pub fn label(&self) -> (r: &'static str)
        ensures
            r@ == match self {
                DecoType::Lifetime => "lifetime"@,
                DecoType::ImmBorrow => "immutable borrow"@,
                DecoType::MutBorrow => "mutable borrow"@,
                DecoType::Move => "move"@,
                DecoType::Call => "call"@,
                DecoType::SharedMut => "shared mutable"@,
                DecoType::Outlive => "outlive"@,
            },
    {
        match self {
            DecoType::Lifetime => "lifetime",
            DecoType::ImmBorrow => "immutable borrow",
            DecoType::MutBorrow => "mutable borrow",
            DecoType::Move => "move",
            DecoType::Call => "call",
            DecoType::SharedMut => "shared mutable",
            DecoType::Outlive => "outlive",
        }
    }
}

/// The underline kind of a decoration of kind `k`.
pub open spec fn deco_type_of(k: int) -> DecoType {
    if k == 0 {
        DecoType::Lifetime
    } else if k == 1 {
        DecoType::ImmBorrow
    } else if k == 2 {
        DecoType::MutBorrow
    } else if k == 3 {
        DecoType::Move
    } else if k == 4 {
        DecoType::Call
    } else if k == 5 {
        DecoType::SharedMut
    } else {
        DecoType::Outlive
    }
}

/// The underline kind of decoration `d`.
pub fn deco_type(d: &Deco) -> (r: DecoType)
    ensures
        r == deco_type_of(d.kind()),
{
    match d.parts().0 {
        0 => DecoType::Lifetime,
        1 => DecoType::ImmBorrow,
        2 => DecoType::MutBorrow,
        3 => DecoType::Move,
        4 => DecoType::Call,
        5 => DecoType::SharedMut,
        _ => DecoType::Outlive,
    }
}

/// One of the paths ends the other.
pub open spec fn related(p: Seq<char>, q: Seq<char>) -> bool {
    ends_with(p, q) || ends_with(q, p)
}

/// The position of the first path of `paths` related to `fp`.
pub open spec fn first_related(paths: Seq<Seq<char>>, fp: Seq<char>) -> Option<int>
    decreases paths.len(),
{
    if paths.len() == 0 {
        None
    } else if related(paths[0], fp) {
        Some(0)
    } else {
        match first_related(paths.drop_first(), fp) {
            Some(i) => Some(i + 1),
            None => None,
        }
    }
}

proof fn lemma_first_related(paths: Seq<Seq<char>>, fp: Seq<char>)
    ensures
        first_related(paths, fp) matches Some(i) ==> 0 <= i < paths.len() && related(paths[i], fp)
            && forall|j: int| 0 <= j < i ==> !related(#[trigger] paths[j], fp),
        first_related(paths, fp) is None ==> forall|j: int|
            0 <= j < paths.len() ==> !related(#[trigger] paths[j], fp),
    decreases paths.len(),
{
    if paths.len() > 0 {
        lemma_first_related(paths.drop_first(), fp);
        if !related(paths[0], fp) {
            assert forall|j: int| 1 <= j < paths.len() implies paths[j] == paths.drop_first()[j - 1] by {}
        }
    }
}

/// The position of the file at `file_path` among files with paths `paths`:
/// the first with exactly that path, else the first related to it.
pub open spec fn file_match(paths: Seq<Seq<char>>, file_path: Seq<char>) -> Option<int> {
    match first_index(paths, file_path) {
        Some(i) => Some(i),
        None => first_related(paths, file_path),
    }
}

/// The paths of the files of `c`.
pub open spec fn file_paths(c: Seq<(String, File)>) -> Seq<Seq<char>> {
    c.map_values(|e: (String, File)| e.0@)
}

/// Finds the file at `file_path` in the crate: by exact path first, then by
/// one path ending the other.
pub fn find_file<'a>(crate_data: &'a Crate, file_path: &str) -> (r: Option<&'a File>)
    ensures
        match file_match(file_paths(crate_data.entries()), file_path@) {
            Some(i) => r == Some(&crate_data.entries()[i].1),
            None => r is None,
        },
{
    let ghost entries = crate_data.entries();
    let ghost paths = file_paths(entries);
    proof {
        lemma_first_index(paths, file_path@);
        lemma_first_related(paths, file_path@);
    }
    let n = files_len(&crate_data.0);
    let key = file_path.to_owned();
    let mut i: usize = 0;
    while i < n
        invariant
            i <= n,
            key@ == file_path@,
            n == entries.len(),
            entries == crate_data.entries(),
            paths == file_paths(entries),
            forall|j: int| 0 <= j < i ==> paths[j] != file_path@,
        decreases n - i,
    {
        if let Some((p, f)) = files_get_index(&crate_data.0, i) {
            if *p == key {
                proof {
                    lemma_first_index(paths, file_path@);
                    assert(paths[i as int] == file_path@);
                    if let Some(c) = first_index(paths, file_path@) {
                        assert(c == i);
                    }
                }
                return Some(f);
            }
            assert(paths[i as int] != file_path@);
        }
        i = i + 1;
    }
    let mut k: usize = 0;
    while k < n
        invariant
            k <= n,
            n == entries.len(),
            entries == crate_data.entries(),
            paths == file_paths(entries),
            forall|j: int| 0 <= j < entries.len() ==> paths[j] != file_path@,
            forall|j: int| 0 <= j < k ==> !related(#[trigger] paths[j], file_path@),
        decreases n - k,
    {
        if let Some((p, f)) = files_get_index(&crate_data.0, k) {
            let p = p.as_str();
            if str_ends_with(p, file_path) || str_ends_with(file_path, p) {
                proof {
                    lemma_first_index(paths, file_path@);
                    lemma_first_related(paths, file_path@);
                    assert(related(paths[k as int], file_path@));
                    if let Some(c) = first_index(paths, file_path@) {
                        assert(paths[c] == file_path@);
                    }
                    if let Some(c) = first_related(paths, file_path@) {
                        assert(c == k);
                    }
                }
                return Some(f);
            }
            assert(!related(paths[k as int], file_path@));
        }
        k = k + 1;
    }
    proof {
        lemma_first_index(paths, file_path@);
        lemma_first_related(paths, file_path@);
        if let Some(c) = first_index(paths, file_path@) {
            assert(paths[c] == file_path@);
        }
        if let Some(c) = first_related(paths, file_path@) {
            assert(related(paths[c], file_path@));
        }
    }
    None
}

/// The variables named `variable_name` that the user declared in functions
/// named `function_name` (alone or at the end of a path), in the order in
/// which the functions of `file` declare them.
pub fn find_variables(file: &File, function_name: &str, variable_name: &str) -> (r: Vec<VariableInfo>)
    ensures
        exists|f0: FindVariablesByName, f1: FindVariablesByName|
            {
                &&& f0.function_name@ == function_name@
                &&& f0.variable_name@ == variable_name@
                &&& f0.current_function_name@.len() == 0
                &&& f0.found@.len() == 0
                &&& passes(file.items@, f0, f1)
                &&& r@ == f1.found@
            },
{
    let mut finder = FindVariablesByName::new(function_name, variable_name);
    let ghost f0 = finder;
    visit_all(&file.items, &mut finder);
    finder.found
}

/// The decorations of local `local` in the functions of `file`, gathered
/// and then passed over for overlaps.
pub fn variable_decorations(file: &File, local: FnLocal) -> (r: Vec<Deco>)
    ensures
        exists|c0: CalcDecos, c1: CalcDecos|
            {
                &&& c0.locals@ == seq![local]
                &&& c0.decorations@.len() == 0
                &&& c0.current_fn_id == 0
                &&& passes(file.items@, c0, c1)
                &&& overlap_inv(r@, c1.decorations@)
                &&& overlap_result(c1.decorations@, dviews(r@))
            },
{
    let mut calc = CalcDecos::new([local]);
    proof {
        assert(calc.locals@ =~= seq![local]);
    }
    let ghost c0 = calc;
    visit_all(&file.items, &mut calc);
    let ghost c1 = calc;
    calc.handle_overlapping();
    calc.decorations()
}

/// The state of splitting text into lines: the lines completed so far and
/// the characters of the line under way.
pub open spec fn lines_state(s: Seq<char>) -> (Seq<Seq<char>>, Seq<char>)
    decreases s.len(),
{
    if s.len() == 0 {
        (Seq::empty(), Seq::empty())
    } else {
        let (done, cur) = lines_state(s.drop_last());
        if s.last() == '\n' {
            (done.push(without_final_cr(cur)), Seq::empty())
        } else {
            (done, cur.push(s.last()))
        }
    }
}

/// `l` without a carriage return at its end.
pub open spec fn without_final_cr(l: Seq<char>) -> Seq<char> {
    if l.len() > 0 && l.last() == '\r' {
        l.drop_last()
    } else {
        l
    }
}

/// The lines of `s`: split at each line feed, a carriage return just before
/// it taken off; a last line feed ends the last line rather than starting an
/// empty one.
pub open spec fn lines_of(s: Seq<char>) -> Seq<Seq<char>> {
    let (done, cur) = lines_state(s);
    if cur.len() > 0 {
        done.push(cur)
    } else {
        done
    }
}

/// The characters of each string of `s`.
pub open spec fn line_views(s: Seq<String>) -> Seq<Seq<char>> {
    s.map_values(|l: String| l@)
}

/// Draws decorations under the lines of a source text.
pub struct CliRenderer {
    pub source: String,
    pub lines: Vec<String>,
}

fn string_of(chars: &Vec<char>) -> (r: String)
    ensures
        r@ == chars@,
{
    let mut s = String::new();
    let mut i: usize = 0;
    while i < chars.len()
        invariant
            i <= chars@.len(),
            s@ == chars@.take(i as int),
        decreases chars@.len() - i,
    {
        s.push(chars[i]);
        i = i + 1;
        proof {
            assert(s@ =~= chars@.take(i as int));
        }
    }
    proof {
        assert(chars@.take(i as int) =~= chars@);
    }
    s
}

impl CliRenderer {
    pub fn new(source: &str) -> (r: Self)
        ensures
            r.source@ == source@,
            line_views(r.lines@) == lines_of(source@),
    {
        let mut lines: Vec<String> = Vec::new();
        let mut cur: Vec<char> = Vec::new();
        for c in it: source.chars()
            invariant
                it.seq() == source@,
                line_views(lines@) == lines_state(source@.take(it.index() as int)).0,
                cur@ == lines_state(source@.take(it.index() as int)).1,
        {
            let ghost k = it.index() as int;
            proof {
                assert(source@.take(k + 1).drop_last() =~= source@.take(k));
                assert(source@.take(k + 1).last() == c);
            }
            if c == '\n' {
                let n = cur.len();
                if n > 0 && cur[n - 1] == '\r' {
                    cur.pop();
                }
                let ghost before = lines@;
                let l = string_of(&cur);
                lines.push(l);
                cur = Vec::new();
                proof {
                    assert(line_views(lines@) =~= line_views(before).push(l@));
                }
            } else {
                cur.push(c);
            }
        }
        proof {
            assert(source@.take(source@.len() as int) =~= source@);
        }
        if cur.len() > 0 {
            let ghost before = lines@;
            let l = string_of(&cur);
            lines.push(l);
            proof {
                assert(line_views(lines@) =~= line_views(before).push(l@));
            }
        }
        CliRenderer { source: source.to_owned(), lines }
    }
}

/// An underline to draw: the line, the columns it spans, and its kind.
#[derive(Clone, Copy, PartialEq, Eq, Debug, Structural)]
pub struct Underline {
    pub line: u32,
    pub start: u32,
    pub end: u32,
    pub kind: DecoType,
}

/// The length in bytes of line `l`, as a `u32`; 0 past the last line.
pub open spec fn line_byte_len(lines: Seq<Seq<char>>, l: int) -> u32 {
    if 0 <= l < lines.len() {
        (encode_utf8(lines[l]).len() as usize) as u32
    } else {
        0
    }
}

/// The underlines of decoration `d`: one on its line, or, where it spans
/// lines, one per line, from its start to the end of the line, whole lines,
/// and from the start of its last line to its end.
pub open spec fn deco_underlines(source: Seq<char>, lines: Seq<Seq<char>>, d: Deco) -> Seq<Underline> {
    let s = position_at(source, d.range_of().lo());
    let e = position_at(source, d.range_of().hi());
    let t = deco_type_of(d.kind());
    if s.line == e.line {
        seq![Underline { line: s.line, start: s.character, end: e.character, kind: t }]
    } else {
        Seq::new(
            (if e.line >= s.line {
                e.line - s.line + 1
            } else {
                0
            }) as nat,
            |k: int|
                Underline {
                    line: (s.line + k) as u32,
                    start: if k == 0 {
                        s.character
                    } else {
                        0
                    },
                    end: if s.line + k == e.line {
                        e.character
                    } else {
                        line_byte_len(lines, s.line + k)
                    },
                    kind: t,
                },
        )
    }
}

/// The underlines of all decorations, in order.
pub open spec fn all_underlines(source: Seq<char>, lines: Seq<Seq<char>>, ds: Seq<Deco>) -> Seq<Underline>
    decreases ds.len(),
{
    if ds.len() == 0 {
        Seq::empty()
    } else {
        all_underlines(source, lines, ds.drop_last()) + deco_underlines(source, lines, ds.last())
    }
}

impl CliRenderer {
    /// The underlines of decorations `decos` in this source.
    pub fn underlines(&self, decos: &[Deco]) -> (r: Vec<Underline>)
        requires
        ensures
            r@ == all_underlines(self.source@, line_views(self.lines@), decos@),
    {
        let ghost lv = line_views(self.lines@);
        let mut out: Vec<Underline> = Vec::new();
        let mut i: usize = 0;
        while i < decos.len()
            invariant
                i <= decos@.len(),
                lv == line_views(self.lines@),
                out@ == all_underlines(self.source@, lv, decos@.take(i as int)),
            decreases decos@.len() - i,
        {
            let d = &decos[i];
            proof {
                assert(decos@.take(i + 1).drop_last() =~= decos@.take(i as int));
            }
            let (kind, _, range, _, _) = d.parts();
            let t = deco_type(d);
            let (sl, sc) = crate::utils::index_to_line_char(self.source.as_str(), range.from());
            let (el, ec) = crate::utils::index_to_line_char(self.source.as_str(), range.until());
            let ghost before = out@;
            let ghost us = deco_underlines(self.source@, lv, *d);
            if sl == el {
                out.push(Underline { line: sl, start: sc, end: ec, kind: t });
                proof {
                    assert(us =~= seq![Underline { line: sl, start: sc, end: ec, kind: t }]);
                    assert(out@ =~= before + us);
                }
            } else {
                let mut line: u64 = sl as u64;
                while line <= el as u64
                    invariant
                        sl as u64 <= line <= el as u64 + 1 || (sl > el && line == sl as u64),
                        lv == line_views(self.lines@),
                        us == deco_underlines(self.source@, lv, *d),
                        sl != el,
                        sl == position_at(self.source@, d.range_of().lo()).line,
                        sc == position_at(self.source@, d.range_of().lo()).character,
                        el == position_at(self.source@, d.range_of().hi()).line,
                        ec == position_at(self.source@, d.range_of().hi()).character,
                        t == deco_type_of(d.kind()),
                        out@ == before + us.take(line - sl),
                        line - sl <= us.len(),
                    decreases el as u64 + 1 - line,
                {
                    let l = line as u32;
                    let col_start = if l == sl {
                        sc
                    } else {
                        0
                    };
                    let col_end = if l == el {
                        ec
                    } else if (l as usize) < self.lines.len() {
                        proof {
                            assert(lv[l as int] == self.lines@[l as int]@);
                        }
                        #[verifier::truncate]
                        (self.lines[l as usize].as_str().len() as u32)
                    } else {
                        0
                    };
                    out.push(Underline { line: l, start: col_start, end: col_end, kind: t });
                    proof {
                        assert(us[line - sl] == Underline { line: l, start: col_start, end: col_end, kind: t });
                        assert(us.take(line - sl + 1) =~= us.take(line - sl).push(us[line - sl]));
                    }
                    line = line + 1;
                }
                proof {
                    assert(us.take(line - sl) =~= us);
                }
            }
            i = i + 1;
        }
        proof {
            assert(decos@.take(i as int) =~= decos@);
        }
        out
    }
}

/// The underlines of `us` on line `line`, in order.
pub open spec fn on_line(us: Seq<Underline>, line: u32) -> Seq<Underline>
    decreases us.len(),
{
    if us.len() == 0 {
        Seq::empty()
    } else if us.last().line == line {
        on_line(us.drop_last(), line).push(us.last())
    } else {
        on_line(us.drop_last(), line)
    }
}

/// The position where `x` goes into `s`: before the first underline that
/// starts later.
pub open spec fn slot(s: Seq<Underline>, x: Underline) -> int
    decreases s.len(),
{
    if s.len() == 0 {
        0
    } else if s[0].start > x.start {
        0
    } else {
        1 + slot(s.drop_first(), x)
    }
}

/// `s` sorted by start column, underlines with the same start kept in
/// their order.
pub open spec fn by_start(s: Seq<Underline>) -> Seq<Underline>
    decreases s.len(),
{
    if s.len() == 0 {
        Seq::empty()
    } else {
        let r = by_start(s.drop_last());
        r.insert(slot(r, s.last()), s.last())
    }
}

proof fn lemma_slot(s: Seq<Underline>, x: Underline)
    ensures
        0 <= slot(s, x) <= s.len(),
        forall|j: int| 0 <= j < slot(s, x) ==> (#[trigger] s[j]).start <= x.start,
        slot(s, x) < s.len() ==> s[slot(s, x)].start > x.start,
    decreases s.len(),
{
    if s.len() > 0 && s[0].start <= x.start {
        lemma_slot(s.drop_first(), x);
        assert forall|j: int| 0 <= j < slot(s, x) implies (#[trigger] s[j]).start <= x.start by {
            if j > 0 {
                assert(s[j] == s.drop_first()[j - 1]);
            }
        }
    }
}

proof fn lemma_by_start_len(s: Seq<Underline>)
    ensures
        by_start(s).len() == s.len(),
    decreases s.len(),
{
    if s.len() > 0 {
        lemma_by_start_len(s.drop_last());
        lemma_slot(by_start(s.drop_last()), s.last());
    }
}

/// The underlines on line `line`, sorted by start column (stably).
pub fn line_underlines(us: &Vec<Underline>, line: u32) -> (r: Vec<Underline>)
    ensures
        r@ == by_start(on_line(us@, line)),
{
    let mut r: Vec<Underline> = Vec::new();
    let mut i: usize = 0;
    while i < us.len()
        invariant
            i <= us@.len(),
            r@ == by_start(on_line(us@.take(i as int), line)),
        decreases us@.len() - i,
    {
        let x = us[i];
        proof {
            assert(us@.take(i + 1).drop_last() =~= us@.take(i as int));
        }
        if x.line == line {
            let ghost f = on_line(us@.take(i as int), line);
            proof {
                lemma_by_start_len(f);
                lemma_slot(r@, x);
            }
            let mut pos: usize = 0;
            while pos < r.len() && r[pos].start <= x.start
                invariant
                    pos <= r@.len(),
                    forall|j: int| 0 <= j < pos ==> (#[trigger] r@[j]).start <= x.start,
                decreases r@.len() - pos,
            {
                pos = pos + 1;
            }
            proof {
                lemma_slot(r@, x);
                let sl = slot(r@, x);
                if sl < pos {
                    assert(r@[sl].start <= x.start);
                }
                if sl > pos {
                    assert(r@[pos as int].start <= x.start);
                }
                assert(slot(r@, x) == pos);
                assert(on_line(us@.take(i + 1), line) == f.push(x));
                assert(f.push(x).drop_last() =~= f);
            }
            r.insert(pos, x);
        }
        i = i + 1;
    }
    proof {
        assert(us@.take(i as int) =~= us@);
    }
    r
}

/// `n` spaces.
pub open spec fn spaces(n: nat) -> Seq<char> {
    Seq::new(n, |k: int| ' ')
}

/// `n` tildes.
pub open spec fn tildes(n: nat) -> Seq<char> {
    Seq::new(n, |k: int| '~')
}

fn push_repeated(s: &mut String, c: char, n: u32)
    ensures
        final(s)@ == old(s)@ + Seq::new(n as nat, |k: int| c),
{
    let mut k: u32 = 0;
    while k < n
        invariant
            k <= n,
            s@ == old(s)@ + Seq::new(k as nat, |t: int| c),
        decreases n - k,
    {
        s.push(c);
        k = k + 1;
        proof {
            assert(s@ =~= old(s)@ + Seq::new(k as nat, |t: int| c));
        }
    }
}

/// The text of underline `u`: under the margin, spaces up to its start,
/// then tildes in its colour (at least one), and its label.
pub open spec fn underline_text(u: Underline) -> Seq<char> {
    "    | "@ + spaces(u.start as nat) + color_of(u.kind) + tildes(
        if u.end - u.start >= 1 {
            (u.end - u.start) as nat
        } else {
            1
        },
    ) + "\x1b[0m"@ + "  <- "@ + label_of(u.kind) + "\x1b[0m"@
}

pub open spec fn color_of(t: DecoType) -> Seq<char> {
    match t {
        DecoType::Lifetime => "\x1b[32m"@,
        DecoType::ImmBorrow => "\x1b[34m"@,
        DecoType::MutBorrow => "\x1b[35m"@,
        DecoType::Move => "\x1b[33m"@,
        DecoType::Call => "\x1b[33m"@,
        DecoType::SharedMut => "\x1b[31m"@,
        DecoType::Outlive => "\x1b[31m"@,
    }
}

pub open spec fn label_of(t: DecoType) -> Seq<char> {
    match t {
        DecoType::Lifetime => "lifetime"@,
        DecoType::ImmBorrow => "immutable borrow"@,
        DecoType::MutBorrow => "mutable borrow"@,
        DecoType::Move => "move"@,
        DecoType::Call => "call"@,
        DecoType::SharedMut => "shared mutable"@,
        DecoType::Outlive => "outlive"@,
    }
}

/// The line drawn for underline `u`, which must not end before it starts.
pub fn underline_line(u: &Underline) -> (r: String)
    requires
        u.start <= u.end,
    ensures
        r@ == underline_text(*u),
{
    let mut s = "    | ".to_owned();
    push_repeated(&mut s, ' ', u.start);
    s.append(u.kind.color());
    let len = if u.end - u.start >= 1 {
        u.end - u.start
    } else {
        1
    };
    push_repeated(&mut s, '~', len);
    s.append("\x1b[0m");
    s.append("  <- ");
    s.append(u.kind.label());
    s.append("\x1b[0m");
    proof {
        assert(s@ =~= underline_text(*u));
    }
    s
}

/// `n` in decimal, right-aligned in four columns.
pub open spec fn padded4(n: nat) -> Seq<char> {
    let d = decimal(n);
    if d.len() < 4 {
        spaces((4 - d.len()) as nat) + d
    } else {
        d
    }
}

/// The line showing source line `line` (counted from 0) with its number.
pub open spec fn source_line_text(line: int, content: Seq<char>) -> Seq<char> {
    padded4((line + 1) as nat) + "| "@ + content
}

fn numbered_line(line: u32, content: &str) -> (r: String)
    requires
        line < u32::MAX,
    ensures
        r@ == source_line_text(line as int, content@),
{
    let mut digits = String::new();
    push_decimal(&mut digits, (line + 1) as u64);
    let n = digits.as_str().unicode_len();
    let mut s = String::new();
    if n < 4 {
        push_repeated(&mut s, ' ', (4 - n) as u32);
    }
    s.append(digits.as_str());
    s.append("| ");
    s.append(content);
    proof {
        assert(s@ =~= source_line_text(line as int, content@));
    }
    s
}

/// The lowest line of the underlines; `u32::MAX` where there are none.
pub open spec fn min_line(us: Seq<Underline>) -> u32
    decreases us.len(),
{
    if us.len() == 0 {
        u32::MAX
    } else if us.last().line < min_line(us.drop_last()) {
        us.last().line
    } else {
        min_line(us.drop_last())
    }
}

/// The highest line of the underlines; 0 where there are none.
pub open spec fn max_line(us: Seq<Underline>) -> u32
    decreases us.len(),
{
    if us.len() == 0 {
        0
    } else if us.last().line > max_line(us.drop_last()) {
        us.last().line
    } else {
        max_line(us.drop_last())
    }
}

/// Every underline ends no earlier than it starts, and lies two lines or
/// more before the last line a `u32` can number.
pub open spec fn renderable(us: Seq<Underline>) -> bool {
    forall|k: int|
        0 <= k < us.len() ==> (#[trigger] us[k]).start <= us[k].end && us[k].line <= u32::MAX - 2
}

/// The header line of the `var_index`th (from 0) of `total_vars` variables.
pub open spec fn header_text(var_info: VariableInfo, var_index: int, total_vars: int) -> Seq<char> {
    "\n\x1b[34m=== Variable '"@ + var_info.name@ + "' ("@ + decimal((var_index + 1) as nat) + "/"@
        + decimal(total_vars as nat) + ") in function '"@ + var_info.function_name@ + "' ===\x1b[0m\n"@
}

/// The lines shown for source lines `from` to `to`: each line with its
/// number, followed by its underlines sorted by start.
pub open spec fn body_text(lines: Seq<Seq<char>>, us: Seq<Underline>, from: int, to: int) -> Seq<Seq<char>>
    decreases to - from + 1,
{
    if to < from {
        Seq::empty()
    } else {
        body_text(lines, us, from, to - 1) + seq![source_line_text(to, lines[to])] + by_start(
            on_line(us, to as u32),
        ).map_values(|u: Underline| underline_text(u))
    }
}

/// The first and last line shown: two lines around the underlined ones,
/// within the text.
pub open spec fn window(us: Seq<Underline>, n_lines: int) -> (int, int) {
    let lo = min_line(us);
    let hi = max_line(us);
    (if lo >= 2 {
        lo - 2
    } else {
        0
    }, if hi + 2 <= n_lines - 1 {
        hi + 2
    } else {
        n_lines - 1
    })
}

/// The characters of each string of `s`.
pub open spec fn text_views(s: Seq<String>) -> Seq<Seq<char>> {
    s.map_values(|l: String| l@)
}

impl CliRenderer {
    /// Whether the decorations can be drawn: see `renderable`.
    pub fn can_render(&self, decos: &[Deco]) -> (r: bool)
        requires
        ensures
            r == renderable(all_underlines(self.source@, line_views(self.lines@), decos@)),
    {
        let us = self.underlines(decos);
        let mut i: usize = 0;
        while i < us.len()
            invariant
                i <= us@.len(),
                us@ == all_underlines(self.source@, line_views(self.lines@), decos@),
                forall|k: int| 0 <= k < i ==> (#[trigger] us@[k]).start <= us@[k].end && us@[k].line <= u32::MAX - 2,
            decreases us@.len() - i,
        {
            if us[i].start > us[i].end || us[i].line > u32::MAX - 2 {
                proof {
                    assert(!(us@[i as int].start <= us@[i as int].end && us@[i as int].line <= u32::MAX - 2));
                }
                return false;
            }
            i = i + 1;
        }
        true
    }

    /// The lines that show the decorations of the `var_index`th (from 0) of
    /// `total_vars` variables: a header, the underlined source lines with two
    /// lines around them, each followed by its underlines, and an empty line.
    pub fn render_variable(&self, var_info: &VariableInfo, var_index: usize, total_vars: usize, decos: &[Deco]) -> (r: Vec<String>)
        requires
            1 <= self.lines@.len() <= u32::MAX,
            var_index < usize::MAX,
            renderable(all_underlines(self.source@, line_views(self.lines@), decos@)),
        ensures
            ({
                let us = all_underlines(self.source@, line_views(self.lines@), decos@);
                let w = window(us, self.lines@.len() as int);
                text_views(r@) == seq![header_text(*var_info, var_index as int, total_vars as int)]
                    + body_text(line_views(self.lines@), us, w.0, w.1) + seq![Seq::<char>::empty()]
            }),
    {
        let ghost lv = line_views(self.lines@);
        let us = self.underlines(decos);
        let mut lo: u32 = u32::MAX;
        let mut hi: u32 = 0;
        let mut i: usize = 0;
        while i < us.len()
            invariant
                i <= us@.len(),
                lo == min_line(us@.take(i as int)),
                hi == max_line(us@.take(i as int)),
                renderable(us@),
                hi <= u32::MAX - 2,
            decreases us@.len() - i,
        {
            proof {
                assert(us@.take(i + 1).drop_last() =~= us@.take(i as int));
            }
            if us[i].line < lo {
                lo = us[i].line;
            }
            if us[i].line > hi {
                hi = us[i].line;
            }
            i = i + 1;
        }
        proof {
            assert(us@.take(i as int) =~= us@);
        }
        let from: u32 = if lo >= 2 {
            lo - 2
        } else {
            0
        };
        let last: u32 = (self.lines.len() - 1) as u32;
        let to: u32 = if hi + 2 <= last {
            hi + 2
        } else {
            last
        };
        let mut out: Vec<String> = Vec::new();
        let mut head = "\n\x1b[34m=== Variable '".to_owned();
        head.append(var_info.name.as_str());
        head.append("' (");
        push_decimal(&mut head, (var_index + 1) as u64);
        head.append("/");
        push_decimal(&mut head, total_vars as u64);
        head.append(") in function '");
        head.append(var_info.function_name.as_str());
        head.append("' ===\x1b[0m\n");
        proof {
            assert(head@ =~= header_text(*var_info, var_index as int, total_vars as int));
        }
        out.push(head);
        let ghost start = text_views(out@);
        let mut line: u64 = from as u64;
        proof {
            assert(text_views(out@) =~= start + body_text(lv, us@, from as int, line - 1));
        }
        while line <= to as u64
            invariant
                from <= line <= to as u64 + 1 || (from > to && line == from as u64),
                to as int <= self.lines@.len() - 1,
                self.lines@.len() <= u32::MAX,
                renderable(us@),
                lv == line_views(self.lines@),
                text_views(out@) == start + body_text(lv, us@, from as int, line - 1),
            decreases to as u64 + 1 - line,
        {
            let l = line as u32;
            let ghost before = text_views(out@);
            let ghost b0 = out@;
            proof {
                assert(lv[l as int] == self.lines@[l as int]@);
                lemma_on_line_renderable(us@, l);
                lemma_by_start_renderable(on_line(us@, l));
            }
            let nl = numbered_line(l, self.lines[l as usize].as_str());
            out.push(nl);
            proof {
                assert(text_views(out@) =~= text_views(b0).push(nl@));
            }
            let under = line_underlines(&us, l);
            let mut k: usize = 0;
            let ghost mid = text_views(out@);
            while k < under.len()
                invariant
                    k <= under@.len(),
                    under@ == by_start(on_line(us@, l)),
                    renderable(under@),
                    text_views(out@) == mid + under@.take(k as int).map_values(|u: Underline| underline_text(u)),
                decreases under@.len() - k,
            {
                let ghost b = out@;
                let t = underline_line(&under[k]);
                out.push(t);
                proof {
                    assert(text_views(out@) =~= text_views(b).push(t@));
                }
                k = k + 1;
                proof {
                    assert(under@.take(k - 1).map_values(|u: Underline| underline_text(u)).push(
                        underline_text(under@[k - 1]),
                    ) =~= under@.take(k as int).map_values(|u: Underline| underline_text(u)));
                    assert(text_views(out@) =~= mid + under@.take(k as int).map_values(|u: Underline| underline_text(u)));
                }
            }
            proof {
                assert(under@.take(k as int) =~= under@);
                assert(text_views(out@) =~= start + body_text(lv, us@, from as int, line as int));
            }
            line = line + 1;
        }
        let ghost b1 = out@;
        let empty = String::new();
        out.push(empty);
        proof {
            assert(text_views(out@) =~= text_views(b1).push(empty@));
            if from <= to {
                assert(line - 1 == to);
            } else {
                assert(body_text(lv, us@, from as int, line - 1) =~= Seq::<Seq<char>>::empty());
                assert(body_text(lv, us@, from as int, to as int) =~= Seq::<Seq<char>>::empty());
            }
            assert(text_views(out@) =~= seq![header_text(*var_info, var_index as int, total_vars as int)]
                + body_text(lv, us@, from as int, to as int) + seq![Seq::<char>::empty()]);
        }
        out
    }
}

proof fn lemma_on_line_renderable(us: Seq<Underline>, l: u32)
    requires
        renderable(us),
    ensures
        renderable(on_line(us, l)),
    decreases us.len(),
{
    if us.len() > 0 {
        let t = us.drop_last();
        assert(renderable(t)) by {
            assert forall|k: int| 0 <= k < t.len() implies (#[trigger] t[k]).start <= t[k].end
                && t[k].line <= u32::MAX - 2 by {
                assert(t[k] == us[k]);
            }
        }
        lemma_on_line_renderable(t, l);
        assert(us.last() == us[us.len() - 1]);
    }
}

proof fn lemma_by_start_renderable(s: Seq<Underline>)
    requires
        renderable(s),
    ensures
        renderable(by_start(s)),
    decreases s.len(),
{
    if s.len() > 0 {
        let t = s.drop_last();
        assert(renderable(t)) by {
            assert forall|k: int| 0 <= k < t.len() implies (#[trigger] t[k]).start <= t[k].end
                && t[k].line <= u32::MAX - 2 by {
                assert(t[k] == s[k]);
            }
        }
        lemma_by_start_renderable(t);
        let r = by_start(t);
        let x = s.last();
        assert(x == s[s.len() - 1]);
        lemma_slot(r, x);
        let p = slot(r, x);
        let q = r.insert(p, x);
        assert forall|k: int| 0 <= k < q.len() implies (#[trigger] q[k]).start <= q[k].end
            && q[k].line <= u32::MAX - 2 by {
            if k < p {
                assert(q[k] == r[k]);
            } else if k > p {
                assert(q[k] == r[k - 1]);
            }
        }
    }
}

/// The legend printed after the variables: what each colour means.
pub open spec fn legend_text() -> Seq<Seq<char>> {
    seq![
        "\x1b[34mLegend:\x1b[0m"@,
        "  \x1b[32m~~~\x1b[0m lifetime"@,
        "  \x1b[34m~~~\x1b[0m immutable borrow"@,
        "  \x1b[35m~~~\x1b[0m mutable borrow"@,
        "  \x1b[33m~~~\x1b[0m move / call"@,
        "  \x1b[31m~~~\x1b[0m outlive / shared mutable"@,
    ]
}

/// The lines of the colour legend.
pub fn legend() -> (r: Vec<String>)
    ensures
        text_views(r@) == legend_text(),
{
    let r = vec![
        "\x1b[34mLegend:\x1b[0m".to_owned(),
        "  \x1b[32m~~~\x1b[0m lifetime".to_owned(),
        "  \x1b[34m~~~\x1b[0m immutable borrow".to_owned(),
        "  \x1b[35m~~~\x1b[0m mutable borrow".to_owned(),
        "  \x1b[33m~~~\x1b[0m move / call".to_owned(),
        "  \x1b[31m~~~\x1b[0m outlive / shared mutable".to_owned(),
    ];
    assert(text_views(r@) =~= legend_text());
    r
}

/// The file and the variables to show, or what is missing: the file at
/// `file_path` (see `find_file`), then the variables named `variable_name`
/// in functions named `function_name`.
pub fn variables_to_show<'a>(crate_data: &'a Crate, file_path: &str, function_name: &str, variable_name: &str) -> (r: Result<(&'a File, Vec<VariableInfo>), VisualizeError>)
    ensures
        file_match(file_paths(crate_data.entries()), file_path@) is None ==> (r matches Err(VisualizeError::FileNotFound(p)) && p@ == file_path@),
        file_match(file_paths(crate_data.entries()), file_path@) matches Some(i) ==> {
            let file = crate_data.entries()[i].1;
            exists|f0: FindVariablesByName, f1: FindVariablesByName|
                {
                    &&& f0.function_name@ == function_name@
                    &&& f0.variable_name@ == variable_name@
                    &&& f0.current_function_name@.len() == 0
                    &&& f0.found@.len() == 0
                    &&& passes(file.items@, f0, f1)
                    &&& f1.found@.len() == 0 ==> (r matches Err(VisualizeError::VariableNotFound(m))
                        && m@ == "'"@ + variable_name@ + "' in function '"@ + function_name@ + "'"@)
                    &&& f1.found@.len() > 0 ==> (r matches Ok((f, vs)) && *f == file && vs@ == f1.found@)
                }
        },
{
    let file = match find_file(crate_data, file_path) {
        Some(f) => f,
        None => {
            return Err(VisualizeError::FileNotFound(file_path.to_owned()));
        },
    };
    let found = find_variables(file, function_name, variable_name);
    if found.len() == 0 {
        let mut m = "'".to_owned();
        m.append(variable_name);
        m.append("' in function '");
        m.append(function_name);
        m.append("'");
        return Err(VisualizeError::VariableNotFound(m));
    }
    Ok((file, found))
}

} // verus!
