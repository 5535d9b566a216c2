//! The analysis cache's settings, read from the values of its environment
//! variables.

use vstd::prelude::*;

verus! {

/// How the cache behaves.
#[derive(Clone, Copy, PartialEq, Eq, Debug, Structural)]
pub struct CacheConfig {
    /// Maximum number of entries before eviction.
    pub max_entries: usize,
    /// Maximum memory usage in bytes before eviction.
    pub max_memory_bytes: usize,
    /// Evict the least recently used entry first (rather than the oldest).
    pub use_lru_eviction: bool,
    /// Check the modification time of files.
    pub validate_file_mtime: bool,
    /// Compress cache files.
    pub enable_compression: bool,
}

/// The default settings: 1000 entries, 100 MiB, LRU eviction, file times
/// checked, no compression.
pub open spec fn default_config() -> CacheConfig {
    CacheConfig {
        max_entries: 1000,
        max_memory_bytes: 104857600usize,
        use_lru_eviction: true,
        validate_file_mtime: true,
        enable_compression: false,
    }
}

impl Default for CacheConfig {
    fn default() -> (r: Self)
        ensures
            r == default_config(),
    {
        Self {
            max_entries: 1000,
            max_memory_bytes: 100 * 1024 * 1024,
            use_lru_eviction: true,
            validate_file_mtime: true,
            enable_compression: false,
        }
    }
}

/// A character with the Unicode `White_Space` property.
pub open spec fn is_space(c: char) -> bool {
    ('\u{9}' <= c && c <= '\u{d}') || c == ' ' || c == '\u{85}' || c == '\u{a0}' || c
        == '\u{1680}' || ('\u{2000}' <= c && c <= '\u{200a}') || c == '\u{2028}' || c == '\u{2029}'
        || c == '\u{202f}' || c == '\u{205f}' || c == '\u{3000}'
}

fn space(c: char) -> (r: bool)
    ensures
        r == is_space(c),
{
    ('\u{9}' <= c && c <= '\u{d}') || c == ' ' || c == '\u{85}' || c == '\u{a0}' || c
        == '\u{1680}' || ('\u{2000}' <= c && c <= '\u{200a}') || c == '\u{2028}' || c == '\u{2029}'
        || c == '\u{202f}' || c == '\u{205f}' || c == '\u{3000}'
}

/// `s` without the white space at either end.
pub open spec fn trimmed(s: Seq<char>) -> Seq<char>
    decreases s.len(),
{
    if s.len() > 0 && is_space(s[0]) {
        trimmed(s.drop_first())
    } else if s.len() > 0 && is_space(s.last()) {
        trimmed(s.drop_last())
    } else {
        s
    }
}

/// `s` with white space removed at both ends.
pub fn trim(s: &str) -> (r: String)
    ensures
        r@ == trimmed(s@),
{
    let mut chars: Vec<char> = Vec::new();
    for c in it: s.chars()
        invariant
            it.seq() == s@,
            chars@ == s@.take(it.index() as int),
    {
        chars.push(c);
        proof {
            assert(chars@ =~= s@.take(it.index() + 1));
        }
    }
    proof {
        assert(s@.take(s@.len() as int) =~= s@);
    }
    let mut lo: usize = 0;
    let mut hi: usize = chars.len();
    proof {
        assert(chars@.subrange(0, chars@.len() as int) =~= chars@);
    }
    while lo < hi && space(chars[lo])
        invariant
            lo <= hi <= chars@.len(),
            trimmed(chars@.subrange(lo as int, hi as int)) == trimmed(s@),
        decreases hi - lo,
    {
        proof {
            assert(chars@.subrange(lo as int, hi as int).drop_first() =~= chars@.subrange(
                lo + 1,
                hi as int,
            ));
        }
        lo = lo + 1;
    }
    while lo < hi && space(chars[hi - 1])
        invariant
            lo <= hi <= chars@.len(),
            trimmed(chars@.subrange(lo as int, hi as int)) == trimmed(s@),
            lo < hi ==> !is_space(chars@[lo as int]),
        decreases hi - lo,
    {
        proof {
            let t = chars@.subrange(lo as int, hi as int);
            if hi - 1 > lo {
                assert(t.drop_last() =~= chars@.subrange(lo as int, hi - 1));
            } else {
                assert(t.drop_last() =~= chars@.subrange(lo as int, hi - 1));
                assert(t.drop_last().len() == 0);
            }
        }
        hi = hi - 1;
    }
    let mut out = String::new();
    let mut k: usize = lo;
    while k < hi
        invariant
            lo <= k <= hi <= chars@.len(),
            out@ == chars@.subrange(lo as int, k as int),
        decreases hi - k,
    {
        out.push(chars[k]);
        k = k + 1;
        proof {
            assert(out@ =~= chars@.subrange(lo as int, k as int));
        }
    }
    proof {
        let t = chars@.subrange(lo as int, hi as int);
        assert(t.len() == 0 || (!is_space(t[0]) && !is_space(t.last())));
    }
    out
}

/// `c` with an ASCII capital letter made small.
pub open spec fn ascii_lower(c: char) -> char {
    if 'A' <= c && c <= 'Z' {
        ((c as u32) + 32) as char
    } else {
        c
    }
}

/// `s` with ASCII capital letters made small.
pub open spec fn lowered(s: Seq<char>) -> Seq<char> {
    s.map_values(|c: char| ascii_lower(c))
}

/// `s` with ASCII capital letters made small.
pub fn to_ascii_lowercase(s: &str) -> (r: String)
    ensures
        r@ == lowered(s@),
{
    let mut out = String::new();
    for c in it: s.chars()
        invariant
            it.seq() == s@,
            out@ == lowered(s@.take(it.index() as int)),
    {
        let l = if 'A' <= c && c <= 'Z' {
            ((c as u8) + 32) as char
        } else {
            c
        };
        out.push(l);
        proof {
            assert(out@ =~= lowered(s@.take(it.index() + 1)));
        }
    }
    proof {
        assert(s@.take(s@.len() as int) =~= s@);
    }
    out
}

/// `v`, trimmed and in small letters, reads `false` or `0`.
pub open spec fn says_off(v: Seq<char>) -> bool {
    let w = lowered(trimmed(v));
    w == "false"@ || w == "0"@
}

fn off(v: &str) -> (r: bool)
    ensures
        r == says_off(v@),
{
    let t = trim(v);
    let w = to_ascii_lowercase(t.as_str());
    w == "false".to_owned() || w == "0".to_owned()
}

/// Whether the cache is on, given the value of `RUSTOWL_CACHE`: it is,
/// unless that value says `false` or `0`.
pub fn is_cache(value: Option<&str>) -> (r: bool)
    ensures
        r == !(value matches Some(v) && says_off(v@)),
{
    match value {
        Some(v) => !off(v),
        None => true,
    }
}

/// The cache directory, given the value of `RUSTOWL_CACHE_DIR`: the value
/// trimmed, where that is not empty.
pub fn get_cache_path(value: Option<&str>) -> (r: Option<String>)
    ensures
        r matches Some(p) ==> value matches Some(v) && p@ == trimmed(v@) && p@.len() > 0,
        r is None ==> !(value matches Some(v) && trimmed(v@).len() > 0),
{
    match value {
        Some(v) => {
            let t = trim(v);
            if t.as_str().unicode_len() == 0 {
                None
            } else {
                Some(t)
            }
        },
        None => None,
    }
}

/// The value of decimal digits `s`.
pub open spec fn digits_value(s: Seq<char>) -> nat
    decreases s.len(),
{
    if s.len() == 0 {
        0
    } else {
        digits_value(s.drop_last()) * 10 + (s.last() as nat - '0' as nat) as nat
    }
}

pub open spec fn all_digits(s: Seq<char>) -> bool {
    forall|i: int| 0 <= i < s.len() ==> '0' <= #[trigger] s[i] && s[i] <= '9'
}

/// The digits of `s` once an optional leading `+` is taken off.
pub open spec fn unsigned_digits(s: Seq<char>) -> Seq<char> {
    if s.len() > 0 && s[0] == '+' {
        s.drop_first()
    } else {
        s
    }
}

/// `s` read as a `usize` the way Rust reads one: an optional `+`, then one
/// or more decimal digits, with a value that fits.
pub open spec fn parsed_usize(s: Seq<char>) -> Option<nat> {
    let d = unsigned_digits(s);
    if d.len() > 0 && all_digits(d) && digits_value(d) <= usize::MAX {
        Some(digits_value(d))
    } else {
        None
    }
}

proof fn lemma_digits_value_grows(s: Seq<char>, i: int)
    requires
        0 <= i <= s.len(),
        all_digits(s),
    ensures
        digits_value(s.take(i)) <= digits_value(s),
    decreases s.len() - i,
{
    if i < s.len() {
        lemma_digits_value_grows(s, i + 1);
        assert(s.take(i + 1).drop_last() =~= s.take(i));
    } else {
        assert(s.take(i) =~= s);
    }
}

/// `s` read as a `usize`; `None` where it is not one.
pub fn parse_usize(s: &str) -> (r: Option<usize>)
    ensures
        r matches Some(v) ==> parsed_usize(s@) == Some(v as nat),
        r is None ==> parsed_usize(s@) is None,
{
    let mut chars: Vec<char> = Vec::new();
    for c in it: s.chars()
        invariant
            it.seq() == s@,
            chars@ == s@.take(it.index() as int),
    {
        chars.push(c);
        proof {
            assert(chars@ =~= s@.take(it.index() + 1));
        }
    }
    proof {
        assert(s@.take(s@.len() as int) =~= s@);
    }
    let start: usize = if chars.len() > 0 && chars[0] == '+' {
        1
    } else {
        0
    };
    let ghost d = unsigned_digits(s@);
    proof {
        if start == 1 {
            assert(d =~= chars@.subrange(1, chars@.len() as int));
        } else {
            assert(d =~= chars@.subrange(0, chars@.len() as int));
        }
    }
    if start >= chars.len() {
        return None;
    }
    let mut value: usize = 0;
    let mut i: usize = start;
    while i < chars.len()
        invariant
            start <= i <= chars@.len(),
            chars@ == s@,
            d == unsigned_digits(s@),
            d == chars@.subrange(start as int, chars@.len() as int),
            all_digits(d.take(i - start)),
            value == digits_value(d.take(i - start)),
        decreases chars@.len() - i,
    {
        let c = chars[i];
        proof {
            assert(d.take(i - start + 1).drop_last() =~= d.take(i - start));
            assert(d[i - start] == c);
        }
        if c < '0' || c > '9' {
            proof {
                assert(!('0' <= d[i - start] && d[i - start] <= '9'));
                assert(!all_digits(d));
            }
            return None;
        }
        let digit = (c as u32 - '0' as u32) as usize;
        proof {
            assert(all_digits(d.take(i - start + 1)));
            assert(d.take(i - start + 1).last() == c);
            assert(digits_value(d.take(i - start + 1)) == value * 10 + digit);
        }
        match value.checked_mul(10) {
            Some(t) => match t.checked_add(digit) {
                Some(n) => {
                    value = n;
                },
                None => {
                    proof {
                        if all_digits(d) {
                            lemma_digits_value_grows(d, i - start + 1);
                        }
                    }
                    return None;
                },
            },
            None => {
                proof {
                    if all_digits(d) {
                        lemma_digits_value_grows(d, i - start + 1);
                    }
                }
                return None;
            },
        }
        i = i + 1;
    }
    proof {
        assert(d.take(i - start) =~= d);
    }
    Some(value)
}

/// `s` read as a `u64` the way Rust reads one.
pub open spec fn parsed_u64(s: Seq<char>) -> Option<nat> {
    let d = unsigned_digits(s);
    if d.len() > 0 && all_digits(d) && digits_value(d) <= u64::MAX {
        Some(digits_value(d))
    } else {
        None
    }
}

/// `s` read as a `u64`; `None` where it is not one.
pub fn parse_u64(s: &str) -> (r: Option<u64>)
    ensures
        r matches Some(v) ==> parsed_u64(s@) == Some(v as nat),
        r is None ==> parsed_u64(s@) is None,
{
    let mut chars: Vec<char> = Vec::new();
    for c in it: s.chars()
        invariant
            it.seq() == s@,
            chars@ == s@.take(it.index() as int),
    {
        chars.push(c);
        proof {
            assert(chars@ =~= s@.take(it.index() + 1));
        }
    }
    proof {
        assert(s@.take(s@.len() as int) =~= s@);
    }
    let start: usize = if chars.len() > 0 && chars[0] == '+' {
        1
    } else {
        0
    };
    let ghost d = unsigned_digits(s@);
    proof {
        if start == 1 {
            assert(d =~= chars@.subrange(1, chars@.len() as int));
        } else {
            assert(d =~= chars@.subrange(0, chars@.len() as int));
        }
    }
    if start >= chars.len() {
        return None;
    }
    let mut value: u64 = 0;
    let mut i: usize = start;
    while i < chars.len()
        invariant
            start <= i <= chars@.len(),
            chars@ == s@,
            d == unsigned_digits(s@),
            d == chars@.subrange(start as int, chars@.len() as int),
            all_digits(d.take(i - start)),
            value == digits_value(d.take(i - start)),
        decreases chars@.len() - i,
    {
        let c = chars[i];
        proof {
            assert(d.take(i - start + 1).drop_last() =~= d.take(i - start));
            assert(d[i - start] == c);
        }
        if c < '0' || c > '9' {
            proof {
                assert(!('0' <= d[i - start] && d[i - start] <= '9'));
                assert(!all_digits(d));
            }
            return None;
        }
        let digit = (c as u32 - '0' as u32) as u64;
        proof {
            assert(all_digits(d.take(i - start + 1)));
            assert(d.take(i - start + 1).last() == c);
            assert(digits_value(d.take(i - start + 1)) == value * 10 + digit);
        }
        match value.checked_mul(10) {
            Some(t) => match t.checked_add(digit) {
                Some(n) => {
                    value = n;
                },
                None => {
                    proof {
                        if all_digits(d) {
                            lemma_digits_value_grows(d, i - start + 1);
                        }
                    }
                    return None;
                },
            },
            None => {
                proof {
                    if all_digits(d) {
                        lemma_digits_value_grows(d, i - start + 1);
                    }
                }
                return None;
            },
        }
        i = i + 1;
    }
    proof {
        assert(d.take(i - start) =~= d);
    }
    Some(value)
}

/// The settings: the defaults, overridden by the values of the variables
/// `RUSTOWL_CACHE_MAX_ENTRIES` (a number of entries), `..._MAX_MEMORY_MB`
/// (a number of MiB, saturating), `..._EVICTION` (`lru` or `fifo`, in any
/// case and spacing) and `..._VALIDATE_FILES` (`false` or `0` turns the check
/// off); a value that does not read as a setting leaves the default.
pub fn get_cache_config(
    max_entries: Option<&str>,
    max_memory_mb: Option<&str>,
    eviction: Option<&str>,
    validate_files: Option<&str>,
) -> (r: CacheConfig)
    ensures
        r.max_entries == (match max_entries {
            Some(v) => match parsed_usize(v@) {
                Some(n) => n,
                None => 1000,
            },
            None => 1000,
        }),
        r.max_memory_bytes == (match max_memory_mb {
            Some(v) => match parsed_usize(v@) {
                Some(n) => if n * 1048576 <= usize::MAX {
                    n * 1048576
                } else {
                    usize::MAX as nat
                },
                None => 100 * 1024 * 1024,
            },
            None => 100 * 1024 * 1024,
        }),
        r.use_lru_eviction == (match eviction {
            Some(v) => lowered(trimmed(v@)) != "fifo"@,
            None => true,
        }),
        r.validate_file_mtime == !(validate_files matches Some(v) && says_off(v@)),
        r.enable_compression == false,
{
    let mut config = CacheConfig::default();
    if let Some(v) = max_entries {
        if let Some(n) = parse_usize(v) {
            config.max_entries = n;
        }
    }
    if let Some(v) = max_memory_mb {
        if let Some(n) = parse_usize(v) {
            config.max_memory_bytes = match n.checked_mul(1024 * 1024) {
                Some(b) => b,
                None => usize::MAX,
            };
        }
    }
    if let Some(v) = eviction {
        proof {
            reveal_strlit("lru");
            reveal_strlit("fifo");
        }
        let t = trim(v);
        let w = to_ascii_lowercase(t.as_str());
        let lru = "lru".to_owned();
        let fifo = "fifo".to_owned();
        assert(w@ == lowered(trimmed(v@)));
        if w == lru {
            config.use_lru_eviction = true;
            assert(lru@ != fifo@);
        } else if w == fifo {
            config.use_lru_eviction = false;
        } else {
            assert(config.use_lru_eviction);
        }
        assert(config.use_lru_eviction == (w@ != "fifo"@));
    }
    if let Some(v) = validate_files {
        config.validate_file_mtime = !off(v);
    }
    config
}

} // verus!
