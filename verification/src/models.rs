//! The data model of the analysis results: locations and ranges in source
//! text, local variables, and the MIR summary of each function.

use vstd::prelude::*;
use crate::maps::{
    inserted, crates_in, crates_index_of, crates_insert, crates_into_vec, crates_new, files_in, files_index_of, files_insert,
    files_into_vec, files_new, has_key, key_index, string_keys, variables_in, variables_insert_absent,
    variables_into_values, variables_values, variables_with_capacity,
};
use foldhash::quality::RandomState as FoldHasher;
use indexmap::IndexMap;
use vstd::std_specs::ops::{AddSpec, SubSpec};

verus! {

broadcast use vstd::string::group_string_axioms;

/// An insertion-ordered map hashed with foldhash.
pub type FoldIndexMap<K, V> = IndexMap<K, V, FoldHasher>;

/// A local variable of a function: its index within the function and the
/// function's id.
#[derive(Debug, Clone, Copy, PartialEq, Eq, Hash, Structural)]
pub struct FnLocal {
    pub id: u32,
    pub fn_id: u32,
}

impl FnLocal {
    pub fn new(id: u32, fn_id: u32) -> (r: Self)
        ensures
            r.id == id,
            r.fn_id == fn_id,
    {
        Self { id, fn_id }
    }
}

/// Number of bytes that the UTF-8 encoding of `c` takes.
pub open spec fn utf8_width(c: char) -> nat {
    if (c as u32) < 0x80 {
        1
    } else if (c as u32) < 0x800 {
        2
    } else if (c as u32) < 0x10000 {
        3
    } else {
        4
    }
}

/// Number of bytes that the UTF-8 encoding of `s` takes.
pub open spec fn utf8_len(s: Seq<char>) -> nat
    decreases s.len(),
{
    if s.len() == 0 {
        0
    } else {
        utf8_len(s.drop_last()) + utf8_width(s.last())
    }
}

/// `s` with every carriage return removed: the compiler reports positions
/// as if the source held none.
pub open spec fn without_cr(s: Seq<char>) -> Seq<char>
    decreases s.len(),
{
    if s.len() == 0 {
        s
    } else if s.last() == '\r' {
        without_cr(s.drop_last())
    } else {
        without_cr(s.drop_last()).push(s.last())
    }
}

/// The number of leading characters of `t` whose encoding ends at or before
/// byte `bp`.
pub open spec fn chars_within_bytes(t: Seq<char>, bp: nat, n: nat) -> bool {
    &&& n <= t.len()
    &&& utf8_len(t.take(n as int)) <= bp
    &&& (n == t.len() || utf8_len(t.take((n + 1) as int)) > bp)
}

pub proof fn lemma_utf8_len_push(s: Seq<char>, c: char)
    ensures
        utf8_len(s.push(c)) == utf8_len(s) + utf8_width(c),
{
    assert(s.push(c).drop_last() =~= s);
}

pub proof fn lemma_utf8_len_monotone(s: Seq<char>, i: int, j: int)
    requires
        0 <= i <= j <= s.len(),
    ensures
        utf8_len(s.take(i)) + (j - i) <= utf8_len(s.take(j)),
    decreases j - i,
{
    if i < j {
        lemma_utf8_len_monotone(s, i, j - 1);
        assert(s.take(j) =~= s.take(j - 1).push(s[j - 1]));
        lemma_utf8_len_push(s.take(j - 1), s[j - 1]);
    }
}

/// A byte position has one character count.
pub proof fn lemma_chars_within_bytes_unique(t: Seq<char>, bp: nat)
    ensures
        forall|a: nat, b: nat|
            chars_within_bytes(t, bp, a) && chars_within_bytes(t, bp, b) ==> a == b,
{
    assert forall|a: nat, b: nat|
        chars_within_bytes(t, bp, a) && chars_within_bytes(t, bp, b) implies a == b by {
        if a < b {
            lemma_utf8_len_monotone(t, (a + 1) as int, b as int);
        } else if b < a {
            lemma_utf8_len_monotone(t, (b + 1) as int, a as int);
        }
    }
}

pub proof fn lemma_without_cr_push(s: Seq<char>, c: char)
    ensures
        without_cr(s.push(c)) == if c == '\r' { without_cr(s) } else { without_cr(s).push(c) },
{
    assert(s.push(c).drop_last() =~= s);
}

/// Leaving out carriage returns maps each prefix to a prefix.
pub proof fn lemma_without_cr_prefix(s: Seq<char>, i: int)
    requires
        0 <= i <= s.len(),
    ensures
        without_cr(s.take(i)).len() <= without_cr(s).len(),
        without_cr(s).take(without_cr(s.take(i)).len() as int) == without_cr(s.take(i)),
    decreases s.len(),
{
    if i == s.len() {
        assert(s.take(i) =~= s);
    } else {
        let s2 = s.drop_last();
        lemma_without_cr_prefix(s2, i);
        assert(s2.take(i) =~= s.take(i));
        assert(s =~= s2.push(s.last()));
        lemma_without_cr_push(s2, s.last());
        let a = without_cr(s.take(i));
        let b = without_cr(s2);
        if s.last() != '\r' {
            assert(b.push(s.last()).take(a.len() as int) =~= b.take(a.len() as int));
        }
    }
}

/// A character position in source text, counted in characters with carriage
/// returns left out.
#[derive(Clone, Copy, PartialEq, Eq, PartialOrd, Ord, Debug, Structural)]
pub struct Loc(pub u32);

impl Loc {
    /// The character position of byte position `byte_pos - offset` (saturating
    /// at zero) of `source`, where bytes are counted as if `source` held no
    /// carriage return: the number of characters whose encoding ends at or
    /// before that byte.
    pub fn new(source: &str, byte_pos: u32, offset: u32) -> (r: Self)
        ensures
            chars_within_bytes(
                without_cr(source@),
                (if byte_pos >= offset { byte_pos - offset } else { 0 }) as nat,
                r.0 as nat,
            ),
    {
        let byte_pos: u64 = if byte_pos >= offset {
            (byte_pos - offset) as u64
        } else {
            0
        };
        let ghost t = without_cr(source@);
        let mut char_count: u32 = 0;
        let mut normalized_byte_count: u64 = 0;
        let mut done = false;
        let ghost mut seen: Seq<char> = Seq::empty();
        proof {
            assert(source@.take(0) =~= Seq::<char>::empty());
        }
        for ch in it: source.chars()
            invariant
                it.seq() == source@,
                t == without_cr(source@),
                byte_pos <= u32::MAX,
                done ==> chars_within_bytes(t, byte_pos as nat, char_count as nat),
                !done ==> {
                    &&& seen == without_cr(source@.take(it.index() as int))
                    &&& seen.len() <= t.len()
                    &&& t.take(seen.len() as int) == seen
                    &&& normalized_byte_count == utf8_len(seen)
                    &&& ((normalized_byte_count <= byte_pos && char_count == seen.len()) || (
                    normalized_byte_count > byte_pos && seen.len() > 0 && char_count == seen.len()
                        - 1 && utf8_len(seen.take(seen.len() - 1)) <= byte_pos
                        && normalized_byte_count <= byte_pos + 4))
                },
        {
            let ghost k = it.index();
            proof {
                assert(source@.take(k + 1) =~= source@.take(k as int).push(ch));
                lemma_without_cr_push(source@.take(k as int), ch);
                lemma_without_cr_prefix(source@, k + 1);
            }
            if done {
            } else if ch == '\r' {
                proof {
                    seen = without_cr(source@.take(k + 1));
                }
            } else if normalized_byte_count >= byte_pos {
                proof {
                    let n = seen.len();
                    let s1 = without_cr(source@.take(k + 1));
                    assert(s1 == seen.push(ch));
                    assert(t.take(s1.len() as int) == s1);
                    if char_count == n {
                        if n < t.len() {
                            assert(t.take(s1.len() as int)[n as int] == t[n as int]);
                            assert(t.take(n + 1 as int) =~= seen.push(ch));
                            lemma_utf8_len_push(seen, ch);
                        }
                    } else {
                        assert(t.take(char_count as int) =~= seen.take(seen.len() - 1));
                        assert(t.take(char_count + 1 as int) =~= seen);
                    }
                }
                done = true;
            } else {
                let c = ch as u32;
                let w: u64 = if c < 0x80 {
                    1
                } else if c < 0x800 {
                    2
                } else if c < 0x10000 {
                    3
                } else {
                    4
                };
                proof {
                    lemma_utf8_len_push(seen, ch);
                    assert(seen.push(ch).take(seen.len() as int) =~= seen);
                    let s2 = seen.push(ch);
                    lemma_utf8_len_monotone(s2, 0, s2.len() as int);
                    assert(s2.take(0) =~= Seq::<char>::empty());
                    assert(s2.take(s2.len() as int) =~= s2);
                }
                normalized_byte_count = normalized_byte_count + w;
                if normalized_byte_count <= byte_pos {
                    char_count = char_count + 1;
                }
                proof {
                    seen = seen.push(ch);
                }
            }
        }
        proof {
            if !done {
                let n = seen.len();
                assert(source@.take(source@.len() as int) =~= source@);
                assert(seen == t);
                assert(t.take(n as int) =~= t);
                if char_count != n {
                    assert(t.take(char_count as int) =~= seen.take(seen.len() - 1));
                    assert(t.take(char_count + 1 as int) =~= seen);
                }
            }
        }
        Loc(char_count)
    }
}


/// `x` clamped into the range of `u32`.
pub open spec fn clamp_u32(x: int) -> u32 {
    if x < 0 {
        0
    } else if x > u32::MAX {
        u32::MAX
    } else {
        x as u32
    }
}

impl core::ops::Add<i32> for Loc {
    type Output = Loc;

    /// Moves the location by a signed offset, saturating at zero and at
    /// `u32::MAX`.
    fn add(self, rhs: i32) -> (r: Loc) {
        if rhs >= 0 {
            Loc(self.0.saturating_add(rhs as u32))
        } else {
            let abs_rhs = (0i64 - rhs as i64) as u32;
            Loc(self.0.saturating_sub(abs_rhs))
        }
    }
}

impl vstd::std_specs::ops::AddSpecImpl<i32> for Loc {
    open spec fn obeys_add_spec() -> bool {
        true
    }

    open spec fn add_req(self, rhs: i32) -> bool {
        true
    }

    open spec fn add_spec(self, rhs: i32) -> Loc {
        Loc(clamp_u32(self.0 + rhs))
    }
}

impl core::ops::Sub<i32> for Loc {
    type Output = Loc;

    /// Moves the location back by a signed offset, saturating at zero and at
    /// `u32::MAX`.
    fn sub(self, rhs: i32) -> (r: Loc) {
        if rhs >= 0 {
            Loc(self.0.saturating_sub(rhs as u32))
        } else {
            let abs_rhs = (0i64 - rhs as i64) as u32;
            Loc(self.0.saturating_add(abs_rhs))
        }
    }
}

impl vstd::std_specs::ops::SubSpecImpl<i32> for Loc {
    open spec fn obeys_sub_spec() -> bool {
        true
    }

    open spec fn sub_req(self, rhs: i32) -> bool {
        true
    }

    open spec fn sub_spec(self, rhs: i32) -> Loc {
        Loc(clamp_u32(self.0 - rhs))
    }
}

impl From<u32> for Loc {
    fn from(value: u32) -> (r: Self) {
        Self(value)
    }
}

impl vstd::std_specs::convert::FromSpecImpl<u32> for Loc {
    open spec fn obeys_from_spec() -> bool {
        true
    }

    open spec fn from_spec(v: u32) -> Loc {
        Loc(v)
    }
}

impl From<Loc> for u32 {
    fn from(value: Loc) -> (r: Self) {
        value.0
    }
}

impl vstd::std_specs::convert::FromSpecImpl<Loc> for u32 {
    open spec fn obeys_from_spec() -> bool {
        true
    }

    open spec fn from_spec(v: Loc) -> u32 {
        v.0
    }
}

/// A half-open range of character positions, `from` included and `until`
/// left out; it is never empty.
#[derive(Clone, Copy, PartialEq, Eq, Debug, Structural)]
pub struct Range {
    from: Loc,
    until: Loc,
}

impl Range {
    /// The first position in the range.
    pub closed spec fn lo(self) -> int {
        self.from.0 as int
    }

    /// The first position after the range.
    pub closed spec fn hi(self) -> int {
        self.until.0 as int
    }

    #[verifier::type_invariant]
    pub closed spec fn inv(self) -> bool {
        self.from.0 < self.until.0
    }

    /// Whether position `x` lies in the range.
    pub open spec fn has(self, x: int) -> bool {
        self.lo() <= x < self.hi()
    }

    /// Two ranges are the same exactly where their bounds are.
    pub proof fn lemma_range_ext(a: Range, b: Range)
        ensures
            (a == b) <==> (a.lo() == b.lo() && a.hi() == b.hi()),
    {
    }

    pub fn new(from: Loc, until: Loc) -> (r: Option<Self>)
        ensures
            r is Some <==> from.0 < until.0,
            r matches Some(v) ==> v.lo() == from.0 && v.hi() == until.0,
    {
        if until.0 <= from.0 {
            None
        } else {
            Some(Self { from, until })
        }
    }

    pub fn from(&self) -> (r: Loc)
        ensures
            r.0 == self.lo(),
            self.lo() < self.hi(),
    {
        proof {
            use_type_invariant(self);
        }
        self.from
    }

    pub fn until(&self) -> (r: Loc)
        ensures
            r.0 == self.hi(),
            self.lo() < self.hi(),
    {
        proof {
            use_type_invariant(self);
        }
        self.until
    }

    /// The number of positions in the range.
    pub fn size(&self) -> (r: u32)
        ensures
            r == self.hi() - self.lo(),
            r > 0,
    {
        proof {
            use_type_invariant(self);
        }
        self.until.0 - self.from.0
    }
}

/// Every range has a position after its first one.
pub broadcast proof fn lemma_range_inv(r: Range)
    requires
        #[trigger] r.inv(),
    ensures
        0 <= r.lo() < r.hi() <= u32::MAX,
{
}

/// Two ranges are equal exactly when their bounds are.
pub broadcast proof fn lemma_range_ext(a: Range, b: Range)
    ensures
        #![trigger a.lo(), b.lo(), a.hi(), b.hi()]
        (a.lo() == b.lo() && a.hi() == b.hi()) <==> a == b,
{
}

/// Every range has bounds in `u32`.
pub broadcast proof fn lemma_range_bounds(r: Range)
    ensures
        0 <= #[trigger] r.lo() <= u32::MAX,
        0 <= #[trigger] r.hi() <= u32::MAX,
{
}

/// A variable of the MIR with the ranges where it lives and where it is dead.
#[derive(Clone, Copy, PartialEq, Eq, Debug, Structural)]
pub enum MirVariable {
    User { index: u32, live: Range, dead: Range },
    Other { index: u32, live: Range, dead: Range },
}

impl MirVariable {
    pub open spec fn index_of(self) -> u32 {
        match self {
            MirVariable::User { index, .. } => index,
            MirVariable::Other { index, .. } => index,
        }
    }
}

/// The variables of a function, at most one per index, in the order in which
/// they were first pushed.
#[derive(Debug)]
pub struct MirVariables(IndexMap<u32, MirVariable>);

/// Whether some variable of `s` has index `index`.
pub open spec fn has_index(s: Seq<MirVariable>, index: u32) -> bool {
    exists|i: int| 0 <= i < s.len() && (#[trigger] s[i]).index_of() == index
}

/// The values of the entries.
pub open spec fn variable_values(s: Seq<(u32, MirVariable)>) -> Seq<MirVariable> {
    s.map_values(|e: (u32, MirVariable)| e.1)
}

impl View for MirVariables {
    type V = Seq<MirVariable>;

    closed spec fn view(&self) -> Seq<MirVariable> {
        variable_values(variables_in(self.0))
    }
}

impl MirVariables {
    /// Each variable is kept under its index, and no two share one.
    #[verifier::type_invariant]
    closed spec fn inv(self) -> bool {
        let s = variables_in(self.0);
        &&& forall|i: int| 0 <= i < s.len() ==> (#[trigger] s[i]).0 == s[i].1.index_of()
        &&& forall|i: int, j: int| 0 <= i < j < s.len() ==> (#[trigger] s[i]).0 != (#[trigger] s[j]).0
    }

    pub fn new() -> (r: Self)
        ensures
            r@ == Seq::<MirVariable>::empty(),
    {
        Self::with_capacity(8)
    }

    pub fn with_capacity(capacity: usize) -> (r: Self)
        ensures
            r@ == Seq::<MirVariable>::empty(),
    {
        let r = Self(variables_with_capacity(capacity));
        assert(r@ =~= Seq::<MirVariable>::empty());
        r
    }

    /// Adds `var` unless a variable with its index is already there.
    pub fn push(&mut self, var: MirVariable)
        ensures
            final(self)@ == if has_index(old(self)@, var.index_of()) {
                old(self)@
            } else {
                old(self)@.push(var)
            },
    {
        proof {
            use_type_invariant(&*self);
        }
        let index = match &var {
            MirVariable::User { index, .. } | MirVariable::Other { index, .. } => *index,
        };
        let ghost s0 = variables_in(self.0);
        proof {
            if has_index(self@, index) {
                let i = choose|i: int| 0 <= i < self@.len() && (#[trigger] self@[i]).index_of() == index;
                assert(s0[i].0 == index);
            }
            if has_key(s0, index) {
                let j = choose|j: int| 0 <= j < s0.len() && (#[trigger] s0[j]).0 == index;
                assert(self@[j].index_of() == index);
            }
        }
        let mut m = variables_with_capacity(0);
        std::mem::swap(&mut m, &mut self.0);
        variables_insert_absent(&mut m, index, var);
        self.0 = m;
        proof {
            assert(variable_values(s0.push((index, var))) =~= variable_values(s0).push(var));
        }
    }

    /// The variables in the order in which they were first pushed.
    pub fn to_vec(self) -> (r: Vec<MirVariable>)
        ensures
            r@ == self@,
    {
        variables_into_values(self.0)
    }
}

impl Default for MirVariables {
    fn default() -> (r: Self)
        ensures
            r@ == Seq::<MirVariable>::empty(),
    {
        Self::new()
    }
}

impl Clone for MirVariables {
    /// The same variables, in the same order.
    fn clone(&self) -> (r: Self)
        ensures
            r@ == self@,
    {
        proof {
            use_type_invariant(self);
        }
        let vals = variables_values(&self.0);
        let ghost s = variables_in(self.0);
        assert(vals@ =~= self@);
        let mut r = MirVariables::with_capacity(vals.len());
        let mut k: usize = 0;
        while k < vals.len()
            invariant
                k <= vals@.len(),
                vals@ == variable_values(s),
                forall|i: int| 0 <= i < s.len() ==> (#[trigger] s[i]).0 == s[i].1.index_of(),
                forall|i: int, j: int| 0 <= i < j < s.len() ==> (#[trigger] s[i]).0 != (#[trigger] s[j]).0,
                r@ == vals@.take(k as int),
            decreases vals@.len() - k,
        {
            let v = vals[k];
            proof {
                if has_index(vals@.take(k as int), v.index_of()) {
                    let i = choose|i: int|
                        0 <= i < vals@.take(k as int).len() && (#[trigger] vals@.take(k as int)[i]).index_of()
                            == v.index_of();
                    assert(s[i].0 == s[k as int].0);
                }
            }
            r.push(v);
            k = k + 1;
            proof {
                assert(r@ =~= vals@.take(k as int));
            }
        }
        proof {
            assert(vals@.take(k as int) =~= vals@);
        }
        r
    }
}

/// The right-hand side of an assignment that moves or borrows a local.
#[derive(Clone, Copy, PartialEq, Eq, Debug, Structural)]
pub enum MirRval {
    Move { target_local: FnLocal, range: Range },
    Borrow { target_local: FnLocal, range: Range, mutable: bool, outlive: Option<Range> },
}

/// A statement of a basic block, with the source range it stems from.
#[derive(Clone, Copy, PartialEq, Eq, Debug, Structural)]
pub enum MirStatement {
    StorageLive { target_local: FnLocal, range: Range },
    StorageDead { target_local: FnLocal, range: Range },
    Assign { target_local: FnLocal, range: Range, rval: Option<MirRval> },
    Other { range: Range },
}

impl MirStatement {
    pub open spec fn range_of(self) -> Range {
        match self {
            MirStatement::StorageLive { range, .. } => range,
            MirStatement::StorageDead { range, .. } => range,
            MirStatement::Assign { range, .. } => range,
            MirStatement::Other { range } => range,
        }
    }

    /// The source range of the statement.
    pub fn range(&self) -> (r: Range)
        ensures
            r == self.range_of(),
    {
        match self {
            Self::StorageLive { range, .. } => *range,
            Self::StorageDead { range, .. } => *range,
            Self::Assign { range, .. } => *range,
            Self::Other { range } => *range,
        }
    }
}

/// The terminator of a basic block, with the source range it stems from.
#[derive(Clone, Copy, PartialEq, Eq, Debug, Structural)]
pub enum MirTerminator {
    Drop { local: FnLocal, range: Range },
    Call { destination_local: FnLocal, fn_span: Range },
    Other { range: Range },
}

impl MirTerminator {
    pub open spec fn range_of(self) -> Range {
        match self {
            MirTerminator::Drop { range, .. } => range,
            MirTerminator::Call { fn_span, .. } => fn_span,
            MirTerminator::Other { range } => range,
        }
    }

    /// The source range of the terminator; for a call, that of the callee.
    pub fn range(&self) -> (r: Range)
        ensures
            r == self.range_of(),
    {
        match self {
            Self::Drop { range, .. } => *range,
            Self::Call { fn_span, .. } => *fn_span,
            Self::Other { range } => *range,
        }
    }
}

/// A basic block: its statements and, where it has one, its terminator.
#[derive(Clone, Debug)]
pub struct MirBasicBlock {
    pub statements: Vec<MirStatement>,
    pub terminator: Option<MirTerminator>,
}

impl MirBasicBlock {
    pub fn new() -> (r: Self)
        ensures
            r.statements@ == Seq::<MirStatement>::empty(),
            r.terminator is None,
    {
        Self { statements: Vec::new(), terminator: None }
    }

    pub fn with_capacity(capacity: usize) -> (r: Self)
        ensures
            r.statements@ == Seq::<MirStatement>::empty(),
            r.terminator is None,
    {
        Self { statements: Vec::with_capacity(capacity), terminator: None }
    }
}

impl Default for MirBasicBlock {
    fn default() -> (r: Self)
        ensures
            r.statements@ == Seq::<MirStatement>::empty(),
            r.terminator is None,
    {
        Self::new()
    }
}

/// A declared local of a function with the ranges where it lives, is
/// borrowed, is dropped and must live.
#[derive(Clone, Debug)]
pub enum MirDecl {
    User {
        local: FnLocal,
        name: String,
        span: Range,
        ty: String,
        lives: Vec<Range>,
        shared_borrow: Vec<Range>,
        mutable_borrow: Vec<Range>,
        drop: bool,
        drop_range: Vec<Range>,
        must_live_at: Vec<Range>,
    },
    Other {
        local: FnLocal,
        ty: String,
        lives: Vec<Range>,
        shared_borrow: Vec<Range>,
        mutable_borrow: Vec<Range>,
        drop: bool,
        drop_range: Vec<Range>,
        must_live_at: Vec<Range>,
    },
}

impl MirDecl {
    pub open spec fn local_of(self) -> FnLocal {
        match self {
            MirDecl::User { local, .. } => local,
            MirDecl::Other { local, .. } => local,
        }
    }

    pub open spec fn ty_of(self) -> Seq<char> {
        match self {
            MirDecl::User { ty, .. } => ty@,
            MirDecl::Other { ty, .. } => ty@,
        }
    }

    pub open spec fn lives_of(self) -> Seq<Range> {
        match self {
            MirDecl::User { lives, .. } => lives@,
            MirDecl::Other { lives, .. } => lives@,
        }
    }

    pub open spec fn shared_borrow_of(self) -> Seq<Range> {
        match self {
            MirDecl::User { shared_borrow, .. } => shared_borrow@,
            MirDecl::Other { shared_borrow, .. } => shared_borrow@,
        }
    }

    pub open spec fn mutable_borrow_of(self) -> Seq<Range> {
        match self {
            MirDecl::User { mutable_borrow, .. } => mutable_borrow@,
            MirDecl::Other { mutable_borrow, .. } => mutable_borrow@,
        }
    }

    pub open spec fn drop_of(self) -> bool {
        match self {
            MirDecl::User { drop, .. } => drop,
            MirDecl::Other { drop, .. } => drop,
        }
    }

    pub open spec fn drop_range_of(self) -> Seq<Range> {
        match self {
            MirDecl::User { drop_range, .. } => drop_range@,
            MirDecl::Other { drop_range, .. } => drop_range@,
        }
    }

    pub open spec fn must_live_at_of(self) -> Seq<Range> {
        match self {
            MirDecl::User { must_live_at, .. } => must_live_at@,
            MirDecl::Other { must_live_at, .. } => must_live_at@,
        }
    }
}

/// The analysis result of one function.
#[derive(Clone, Debug)]
pub struct Function {
    pub fn_id: u32,
    pub name: String,
    pub basic_blocks: Vec<MirBasicBlock>,
    pub decls: Vec<MirDecl>,
}

impl Function {
    pub fn new(fn_id: u32) -> (r: Self)
        ensures
            r.fn_id == fn_id,
            r.name@ == Seq::<char>::empty(),
            r.basic_blocks@.len() == 0,
            r.decls@.len() == 0,
    {
        Self { fn_id, name: String::new(), basic_blocks: Vec::new(), decls: Vec::new() }
    }

    pub fn with_capacity(fn_id: u32, bb_capacity: usize, decl_capacity: usize) -> (r: Self)
        ensures
            r.fn_id == fn_id,
            r.name@ == Seq::<char>::empty(),
            r.basic_blocks@.len() == 0,
            r.decls@.len() == 0,
    {
        Self {
            fn_id,
            name: String::new(),
            basic_blocks: Vec::with_capacity(bb_capacity),
            decls: Vec::with_capacity(decl_capacity),
        }
    }
}

/// The functions analysed in one source file.
#[derive(Clone, Debug)]
pub struct File {
    pub items: Vec<Function>,
}

impl File {
    pub fn new() -> (r: Self)
        ensures
            r.items@.len() == 0,
    {
        Self { items: Vec::new() }
    }

    pub fn with_capacity(capacity: usize) -> (r: Self)
        ensures
            r.items@.len() == 0,
    {
        Self { items: Vec::with_capacity(capacity) }
    }
}

impl Default for File {
    fn default() -> (r: Self)
        ensures
            r.items@.len() == 0,
    {
        Self::new()
    }
}

/// Whether some function of `s` has id `fn_id`.
pub open spec fn has_fn_id(s: Seq<Function>, fn_id: u32) -> bool {
    exists|j: int| 0 <= j < s.len() && (#[trigger] s[j]).fn_id == fn_id
}

/// `existing` followed by those functions of `new` whose id occurs neither in
/// `existing` nor earlier in `new`.
pub open spec fn append_new_functions(existing: Seq<Function>, new: Seq<Function>) -> Seq<
    Function,
>
    decreases new.len(),
{
    if new.len() == 0 {
        existing
    } else {
        let acc = append_new_functions(existing, new.drop_last());
        if has_fn_id(acc, new.last().fn_id) {
            acc
        } else {
            acc.push(new.last())
        }
    }
}

/// The position of the first entry of `keys` equal to `key`.
pub open spec fn first_index(keys: Seq<Seq<char>>, key: Seq<char>) -> Option<int>
    decreases keys.len(),
{
    if keys.len() == 0 {
        None
    } else if keys[0] == key {
        Some(0)
    } else {
        match first_index(keys.drop_first(), key) {
            Some(i) => Some(i + 1),
            None => None,
        }
    }
}

pub proof fn lemma_first_index(keys: Seq<Seq<char>>, key: Seq<char>)
    ensures
        first_index(keys, key) matches Some(i) ==> 0 <= i < keys.len() && keys[i] == key && forall|
            j: int,
        | 0 <= j < i ==> keys[j] != key,
        first_index(keys, key) is None ==> forall|j: int| 0 <= j < keys.len() ==> keys[j] != key,
    decreases keys.len(),
{
    if keys.len() > 0 {
        lemma_first_index(keys.drop_first(), key);
        if keys[0] != key {
            assert forall|j: int| 1 <= j < keys.len() implies keys[j] == keys.drop_first()[j - 1] by {}
        }
    }
}

/// The keys of a sequence of named entries.
pub open spec fn keys_of<V>(s: Seq<(Seq<char>, V)>) -> Seq<Seq<char>> {
    s.map_values(|e: (Seq<char>, V)| e.0)
}

/// The view of the files of a crate: each file name with its functions.
pub type CrateView = Seq<(Seq<char>, Seq<Function>)>;

/// `s` with the files of `o` merged in, one after the other: a file already
/// present gets the functions of the new one that it lacks, appended; a new
/// file is appended whole.
pub open spec fn merge_files(s: CrateView, o: CrateView) -> CrateView
    decreases o.len(),
{
    if o.len() == 0 {
        s
    } else {
        let acc = merge_files(s, o.drop_last());
        let k = o.last().0;
        match first_index(keys_of(acc), k) {
            Some(i) => acc.update(i, (k, append_new_functions(acc[i].1, o.last().1))),
            None => acc.push(o.last()),
        }
    }
}

/// The view of a workspace: each crate name with its files.
pub type WorkspaceView = Seq<(Seq<char>, CrateView)>;

/// `s` with the crates of `o` merged in, one after the other: a crate already
/// present gets the files of the new one merged in; a new crate is appended
/// whole.
pub open spec fn merge_crates(s: WorkspaceView, o: WorkspaceView) -> WorkspaceView
    decreases o.len(),
{
    if o.len() == 0 {
        s
    } else {
        let acc = merge_crates(s, o.drop_last());
        let k = o.last().0;
        match first_index(keys_of(acc), k) {
            Some(i) => acc.update(i, (k, merge_files(acc[i].1, o.last().1))),
            None => acc.push(o.last()),
        }
    }
}

pub open spec fn file_entry_view(e: (String, File)) -> (Seq<char>, Seq<Function>) {
    (e.0@, e.1.items@)
}

pub open spec fn crate_entries_view(s: Seq<(String, File)>) -> CrateView {
    s.map_values(|e: (String, File)| file_entry_view(e))
}

/// The files of a crate, each under its path, in the order they were added.
#[derive(Clone, Debug)]
pub struct Crate(pub FoldIndexMap<String, File>);

impl View for Crate {
    type V = CrateView;

    open spec fn view(&self) -> CrateView {
        crate_entries_view(files_in(self.0))
    }
}

impl Crate {
    /// The entries of the crate's map, in order.
    pub open spec fn entries(self) -> Seq<(String, File)> {
        files_in(self.0)
    }

    /// A crate with no files.
    pub fn new() -> (r: Self)
        ensures
            r.entries() == Seq::<(String, File)>::empty(),
            r@ == CrateView::empty(),
    {
        let r = Crate(files_new());
        assert(r@ =~= CrateView::empty());
        r
    }
}

impl Default for Crate {
    fn default() -> (r: Self)
        ensures
            r@ == CrateView::empty(),
    {
        Self::new()
    }
}

pub open spec fn crate_entry_view(e: (String, Crate)) -> (Seq<char>, CrateView) {
    (e.0@, e.1@)
}

pub open spec fn workspace_entries_view(s: Seq<(String, Crate)>) -> WorkspaceView {
    s.map_values(|e: (String, Crate)| crate_entry_view(e))
}

/// The crates of a workspace, each under its name, in the order they were
/// added.
#[derive(Clone, Debug)]
pub struct Workspace(pub FoldIndexMap<String, Crate>);

impl View for Workspace {
    type V = WorkspaceView;

    open spec fn view(&self) -> WorkspaceView {
        workspace_entries_view(crates_in(self.0))
    }
}

impl Workspace {
    /// The entries of the workspace's map, in order.
    pub open spec fn entries(self) -> Seq<(String, Crate)> {
        crates_in(self.0)
    }

    /// A workspace with no crates.
    pub fn new() -> (r: Self)
        ensures
            r.entries() == Seq::<(String, Crate)>::empty(),
            r@ == WorkspaceView::empty(),
    {
        let r = Workspace(crates_new());
        assert(r@ =~= WorkspaceView::empty());
        r
    }
}

/// The position of the first entry of `v` named `key`.
pub(crate) fn find_entry<T>(v: &Vec<(String, T)>, key: &String) -> (r: Option<usize>)
    ensures
        r matches Some(i) ==> i < v@.len() && v@[i as int].0@ == key@ && forall|j: int|
            0 <= j < i ==> (#[trigger] v@[j]).0@ != key@,
        r is None ==> forall|j: int| 0 <= j < v@.len() ==> (#[trigger] v@[j]).0@ != key@,
{
    let mut i: usize = 0;
    while i < v.len()
        invariant
            i <= v@.len(),
            forall|j: int| 0 <= j < i ==> (#[trigger] v@[j]).0@ != key@,
        decreases v@.len() - i,
    {
        if v[i].0 == *key {
            return Some(i);
        }
        i = i + 1;
    }
    None
}

pub(crate) proof fn lemma_first_index_of<T>(s: Seq<(Seq<char>, T)>, key: Seq<char>, r: Option<int>)
    requires
        r matches Some(i) ==> 0 <= i < s.len() && s[i].0 == key && forall|j: int|
            0 <= j < i ==> (#[trigger] s[j]).0 != key,
        r is None ==> forall|j: int| 0 <= j < s.len() ==> (#[trigger] s[j]).0 != key,
    ensures
        first_index(keys_of(s), key) == r,
{
    let keys = keys_of(s);
    lemma_first_index(keys, key);
    match first_index(keys, key) {
        Some(i) => {
            match r {
                Some(i2) => {
                    if i < i2 {
                        assert(s[i].0 == keys[i]);
                    } else if i2 < i {
                        assert(s[i2].0 == keys[i2]);
                    }
                },
                None => {
                    assert(s[i].0 == keys[i]);
                },
            }
        },
        None => {
            if let Some(i2) = r {
                assert(s[i2].0 == keys[i2]);
            }
        },
    }
}

/// Appends to `items` those functions of `new` whose id it does not hold yet.
fn append_new_functions_to(items: &mut Vec<Function>, new: Vec<Function>)
    ensures
        final(items)@ == append_new_functions(old(items)@, new@),
{
    let mut seen: Vec<u32> = Vec::new();
    let mut i: usize = 0;
    while i < items.len()
        invariant
            i <= items@.len(),
            seen@.len() == i,
            items@ == old(items)@,
            forall|j: int| 0 <= j < i ==> seen@[j] == (#[trigger] items@[j]).fn_id,
        decreases items@.len() - i,
    {
        seen.push(items[i].fn_id);
        i = i + 1;
    }
    let ghost n = new@;
    proof {
        assert(n.take(0) =~= Seq::<Function>::empty());
    }
    for item in it: new
        invariant
            it.seq() == n,
            seen@.len() == items@.len(),
            forall|j: int| 0 <= j < items@.len() ==> seen@[j] == (#[trigger] items@[j]).fn_id,
            items@ == append_new_functions(old(items)@, n.take(it.index() as int)),
    {
        let ghost k = it.index();
        let ghost acc = items@;
        proof {
            assert(n.take(k + 1).drop_last() =~= n.take(k as int));
            assert(n.take(k + 1).last() == item);
        }
        let id = item.fn_id;
        let mut found = false;
        let mut j: usize = 0;
        while j < seen.len()
            invariant
                j <= seen@.len(),
                found <==> exists|m: int| 0 <= m < j && seen@[m] == id,
            decreases seen@.len() - j,
        {
            if seen[j] == id {
                found = true;
            }
            j = j + 1;
        }
        proof {
            if found {
                let m = choose|m: int| 0 <= m < seen@.len() && seen@[m] == id;
                assert(acc[m].fn_id == id);
            } else {
                assert forall|m: int| 0 <= m < acc.len() implies (#[trigger] acc[m]).fn_id != id by {
                    assert(seen@[m] == acc[m].fn_id);
                }
            }
        }
        if !found {
            seen.push(id);
            items.push(item);
        }
    }
    proof {
        assert(n.take(n.len() as int) =~= n);
    }
}

/// The keys of the view of `s` are the views of its keys.
proof fn lemma_crate_keys(s: Seq<(String, File)>)
    ensures
        keys_of(crate_entries_view(s)) == string_keys(s),
{
    assert(keys_of(crate_entries_view(s)) =~= string_keys(s));
}

/// The keys of the view of `s` are the views of its keys.
proof fn lemma_workspace_keys(s: Seq<(String, Crate)>)
    ensures
        keys_of(workspace_entries_view(s)) == string_keys(s),
{
    assert(keys_of(workspace_entries_view(s)) =~= string_keys(s));
}

impl Crate {
    /// Merges the files of `other` into this crate: a file that is already
    /// here gets the functions of the new one whose ids it lacks, appended in
    /// order; a new file is added at the end.
    pub fn merge(&mut self, other: Self)
        ensures
            final(self)@ == merge_files(old(self)@, other@),
    {
        let Crate(files) = other;
        let files = files_into_vec(files);
        let ghost o = files@;
        proof {
            assert(crate_entries_view(o.take(0)) =~= Seq::<(Seq<char>, Seq<Function>)>::empty());
            assert(crate_entries_view(o) =~= other@);
        }
        for entry in it: files
            invariant
                it.seq() == o,
                self@ == merge_files(old(self)@, crate_entries_view(o.take(it.index() as int))),
        {
            let ghost k = it.index();
            let ghost acc = self@;
            let ghost e0 = self.entries();
            proof {
                let ov = crate_entries_view(o.take(k + 1));
                assert(ov.drop_last() =~= crate_entries_view(o.take(k as int)));
                assert(ov.last() == file_entry_view(entry));
                lemma_crate_keys(e0);
            }
            let (file, mir) = entry;
            match files_index_of(&self.0, file.as_str()) {
                Some(idx) => {
                    let key = file.clone();
                    assert(key_index(e0, file@) == Some(idx as int));
                    proof {
                        lemma_first_index(string_keys(e0), file@);
                    }
                    let placeholder = File::new();
                    let taken = files_insert(&mut self.0, file, placeholder);
                    let ghost e1 = self.entries();
                    proof {
                        assert(e1 == inserted(e0, key, placeholder));
                        assert(key_index(e0, key@) == Some(idx as int));
                        assert(e1 == e0.update(idx as int, (e0[idx as int].0, placeholder)));
                        assert(string_keys(e1) =~= string_keys(e0));
                    }
                    let mut existing = match taken {
                        Some(f) => f,
                        None => File::new(),
                    };
                    append_new_functions_to(&mut existing.items, mir.items);
                    let _ = files_insert(&mut self.0, key, existing);
                    proof {
                        assert(self@ =~= acc.update(idx as int, (file@, append_new_functions(acc[idx as int].1, mir.items@))));
                    }
                },
                None => {
                    files_insert(&mut self.0, file, mir);
                    proof {
                        assert(self@ =~= acc.push(file_entry_view((file, mir))));
                    }
                },
            }
        }
        proof {
            assert(o.take(o.len() as int) =~= o);
        }
    }
}

impl Workspace {
    /// Merges the crates of `other` into this workspace: a crate that is
    /// already here has the new one merged into it; a new crate is added at
    /// the end.
    pub fn merge(&mut self, other: Self)
        ensures
            final(self)@ == merge_crates(old(self)@, other@),
    {
        let Workspace(crates) = other;
        let crates = crates_into_vec(crates);
        let ghost o = crates@;
        proof {
            assert(workspace_entries_view(o.take(0)) =~= Seq::<(Seq<char>, CrateView)>::empty());
            assert(workspace_entries_view(o) =~= other@);
        }
        for entry in it: crates
            invariant
                it.seq() == o,
                self@ == merge_crates(old(self)@, workspace_entries_view(o.take(it.index() as int))),
        {
            let ghost k = it.index();
            let ghost acc = self@;
            let ghost e0 = self.entries();
            proof {
                let ov = workspace_entries_view(o.take(k + 1));
                assert(ov.drop_last() =~= workspace_entries_view(o.take(k as int)));
                assert(ov.last() == crate_entry_view(entry));
                lemma_workspace_keys(e0);
            }
            let (name, krate) = entry;
            match crates_index_of(&self.0, name.as_str()) {
                Some(idx) => {
                    let key = name.clone();
                    assert(key_index(e0, name@) == Some(idx as int));
                    proof {
                        lemma_first_index(string_keys(e0), name@);
                    }
                    let placeholder = Crate::new();
                    let taken = crates_insert(&mut self.0, name, placeholder);
                    let ghost e1 = self.entries();
                    proof {
                        assert(e1 == inserted(e0, key, placeholder));
                        assert(key_index(e0, key@) == Some(idx as int));
                        assert(e1 == e0.update(idx as int, (e0[idx as int].0, placeholder)));
                        assert(string_keys(e1) =~= string_keys(e0));
                    }
                    let mut existing = match taken {
                        Some(c) => c,
                        None => Crate::new(),
                    };
                    let ghost kv = krate@;
                    existing.merge(krate);
                    let _ = crates_insert(&mut self.0, key, existing);
                    proof {
                        assert(self@ =~= acc.update(idx as int, (name@, merge_files(acc[idx as int].1, kv))));
                    }
                },
                None => {
                    crates_insert(&mut self.0, name, krate);
                    proof {
                        assert(self@ =~= acc.push(crate_entry_view((name, krate))));
                    }
                },
            }
        }
        proof {
            assert(o.take(o.len() as int) =~= o);
        }
    }
}

/// Every id in `s` occurs once.
pub open spec fn fn_ids_unique(s: Seq<Function>) -> bool {
    forall|i: int, j: int| 0 <= i < j < s.len() ==> (#[trigger] s[i]).fn_id != (#[trigger] s[j]).fn_id
}

/// Merging the functions of a file: an id is in the result exactly when it
/// is in either file, and ids that were unique stay unique.
pub proof fn law_append_new_functions(existing: Seq<Function>, new: Seq<Function>)
    ensures
        forall|id: u32|
            has_fn_id(append_new_functions(existing, new), id) <==> (has_fn_id(existing, id)
                || has_fn_id(new, id)),
        fn_ids_unique(existing) ==> fn_ids_unique(append_new_functions(existing, new)),
        existing.is_prefix_of(append_new_functions(existing, new)),
    decreases new.len(),
{
    if new.len() > 0 {
        let acc = append_new_functions(existing, new.drop_last());
        law_append_new_functions(existing, new.drop_last());
        let last = new.last();
        assert forall|id: u32| has_fn_id(new, id) <==> (has_fn_id(new.drop_last(), id) || last.fn_id == id) by {
            if has_fn_id(new, id) {
                let j = choose|j: int| 0 <= j < new.len() && (#[trigger] new[j]).fn_id == id;
                if j < new.len() - 1 {
                    assert(new.drop_last()[j] == new[j]);
                }
            }
            if has_fn_id(new.drop_last(), id) {
                let j = choose|j: int| 0 <= j < new.drop_last().len() && (#[trigger] new.drop_last()[j]).fn_id == id;
                assert(new[j] == new.drop_last()[j]);
            }
            if last.fn_id == id {
                assert(new[new.len() - 1].fn_id == id);
            }
        }
        if !has_fn_id(acc, last.fn_id) {
            let r = acc.push(last);
            assert forall|id: u32| has_fn_id(r, id) <==> (has_fn_id(acc, id) || last.fn_id == id) by {
                if has_fn_id(r, id) {
                    let j = choose|j: int| 0 <= j < r.len() && (#[trigger] r[j]).fn_id == id;
                    if j < acc.len() {
                        assert(acc[j] == r[j]);
                    }
                }
                if has_fn_id(acc, id) {
                    let j = choose|j: int| 0 <= j < acc.len() && (#[trigger] acc[j]).fn_id == id;
                    assert(r[j] == acc[j]);
                }
                if last.fn_id == id {
                    assert(r[acc.len() as int].fn_id == id);
                }
            }
            if fn_ids_unique(existing) {
                assert forall|i: int, j: int| 0 <= i < j < r.len() implies (#[trigger] r[i]).fn_id != (#[trigger] r[j]).fn_id by {
                    if j == acc.len() {
                        assert(r[i] == acc[i]);
                        if acc[i].fn_id == last.fn_id {
                            assert(has_fn_id(acc, last.fn_id));
                        }
                    } else {
                        assert(r[i] == acc[i] && r[j] == acc[j]);
                    }
                }
            }
            assert(existing.is_prefix_of(r)) by {
                assert forall|i: int| 0 <= i < existing.len() implies existing[i] == r[i] by {
                    assert(acc[i] == existing[i]);
                }
            }
        }
    }
}

/// An element of `s` pushed with `a` is an element of `s` or `a`.
proof fn lemma_push_contains<A>(s: Seq<A>, a: A)
    ensures
        forall|x: A| s.push(a).contains(x) <==> (s.contains(x) || x == a),
{
    assert forall|x: A| s.push(a).contains(x) <==> (s.contains(x) || x == a) by {
        if s.push(a).contains(x) {
            let j = choose|j: int| 0 <= j < s.push(a).len() && s.push(a)[j] == x;
            if j < s.len() {
                assert(s[j] == x);
            }
        }
        if s.contains(x) {
            let j = choose|j: int| 0 <= j < s.len() && s[j] == x;
            assert(s.push(a)[j] == x);
        }
        if x == a {
            assert(s.push(a)[s.len() as int] == x);
        }
    }
}

/// The keys of `s` with `(k, v)` put at the first entry for `k`, or pushed
/// where there is none, are the keys of `s` and `k`.
proof fn lemma_keys_after_put<V>(s: Seq<(Seq<char>, V)>, k: Seq<char>, v: V)
    ensures
        forall|x: Seq<char>|
            keys_of(
                match first_index(keys_of(s), k) {
                    Some(i) => s.update(i, (k, v)),
                    None => s.push((k, v)),
                },
            ).contains(x) <==> (keys_of(s).contains(x) || x == k),
{
    lemma_first_index(keys_of(s), k);
    match first_index(keys_of(s), k) {
        Some(i) => {
            let r = s.update(i, (k, v));
            assert(keys_of(r) =~= keys_of(s));
            assert(keys_of(s)[i] == k);
            assert(keys_of(s).contains(k));
        },
        None => {
            let r = s.push((k, v));
            assert(keys_of(r) =~= keys_of(s).push(k));
            lemma_push_contains(keys_of(s), k);
        },
    }
}

/// After a crate merge, the crate holds a file under a path exactly when
/// either crate did.
#[verifier::spinoff_prover]
#[verifier::rlimit(30)]
pub proof fn law_merge_files_keys(s: CrateView, o: CrateView)
    ensures
        forall|x: Seq<char>|
            keys_of(merge_files(s, o)).contains(x) <==> (keys_of(s).contains(x) || keys_of(o).contains(x)),
    decreases o.len(),
{
    if o.len() > 0 {
        law_merge_files_keys(s, o.drop_last());
        let acc = merge_files(s, o.drop_last());
        let k = o.last().0;
        lemma_first_index(keys_of(acc), k);
        let v = match first_index(keys_of(acc), k) {
            Some(i) => append_new_functions(acc[i].1, o.last().1),
            None => o.last().1,
        };
        lemma_keys_after_put(acc, k, v);
        assert(keys_of(o.drop_last()).push(k) =~= keys_of(o));
        lemma_push_contains(keys_of(o.drop_last()), k);
        assert(merge_files(s, o) == match first_index(keys_of(acc), k) {
            Some(i) => acc.update(i, (k, v)),
            None => acc.push((k, v)),
        });
    } else {
        assert(keys_of(o) =~= Seq::<Seq<char>>::empty());
    }
}

/// After a workspace merge, the workspace holds a crate under a name exactly
/// when either workspace did.
#[verifier::spinoff_prover]
#[verifier::rlimit(30)]
pub proof fn law_merge_crates_keys(s: WorkspaceView, o: WorkspaceView)
    ensures
        forall|x: Seq<char>|
            keys_of(merge_crates(s, o)).contains(x) <==> (keys_of(s).contains(x) || keys_of(o).contains(x)),
    decreases o.len(),
{
    if o.len() > 0 {
        law_merge_crates_keys(s, o.drop_last());
        let acc = merge_crates(s, o.drop_last());
        let k = o.last().0;
        lemma_first_index(keys_of(acc), k);
        let v = match first_index(keys_of(acc), k) {
            Some(i) => merge_files(acc[i].1, o.last().1),
            None => o.last().1,
        };
        lemma_keys_after_put(acc, k, v);
        assert(keys_of(o.drop_last()).push(k) =~= keys_of(o));
        lemma_push_contains(keys_of(o.drop_last()), k);
        assert(merge_crates(s, o) == match first_index(keys_of(acc), k) {
            Some(i) => acc.update(i, (k, v)),
            None => acc.push((k, v)),
        });
    } else {
        assert(keys_of(o) =~= Seq::<Seq<char>>::empty());
    }
}

/// A carriage return anywhere in a text is left out.
proof fn lemma_without_cr_insert(a: Seq<char>, b: Seq<char>)
    ensures
        without_cr(a + seq!['\r'] + b) == without_cr(a + b),
    decreases b.len(),
{
    if b.len() == 0 {
        assert(a + seq!['\r'] + b =~= a.push('\r'));
        assert(a + b =~= a);
        lemma_without_cr_push(a, '\r');
    } else {
        lemma_without_cr_insert(a, b.drop_last());
        assert(a + seq!['\r'] + b =~= (a + seq!['\r'] + b.drop_last()).push(b.last()));
        assert(a + b =~= (a + b.drop_last()).push(b.last()));
        lemma_without_cr_push(a + seq!['\r'] + b.drop_last(), b.last());
        lemma_without_cr_push(a + b.drop_last(), b.last());
    }
}

/// A location does not depend on carriage returns in the source: the same
/// byte position in a source with one more carriage return gives the same
/// character count.
pub proof fn law_loc_ignores_carriage_returns(a: Seq<char>, b: Seq<char>, bp: nat, l1: nat, l2: nat)
    requires
        chars_within_bytes(without_cr(a + seq!['\r'] + b), bp, l1),
        chars_within_bytes(without_cr(a + b), bp, l2),
    ensures
        l1 == l2,
{
    lemma_without_cr_insert(a, b);
    lemma_chars_within_bytes_unique(without_cr(a + b), bp);
}

/// Moving a location forward by `n` and back again gives it back, where the
/// forward move stays within `u32`.
pub proof fn law_loc_add_sub(loc: Loc, n: i32)
    requires
        0 <= loc.0 + n <= u32::MAX,
    ensures
        loc.add_spec(n).sub_spec(n) == loc,
{
}

} // verus!
