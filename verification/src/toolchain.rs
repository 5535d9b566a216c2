//! Where the toolchain lives and how it is fetched: paths under the runtime
//! directory, safe extraction paths, download file names and resumption,
//! and the flags and environment handed to cargo and rustc.

use crate::cache::is_space;
use crate::text::{chars_of, string_of_range};
use std::hash::{Hash, Hasher};
use vstd::prelude::*;

verus! {

/// `base` with `part` joined to it as a path: `part` itself where it is
/// absolute or `base` is empty, otherwise the two with one `/` between.
pub open spec fn path_join(base: Seq<char>, part: Seq<char>) -> Seq<char> {
    if part.len() > 0 && part[0] == '/' {
        part
    } else if base.len() == 0 {
        part
    } else if base.last() == '/' {
        base + part
    } else {
        base + seq!['/'] + part
    }
}

/// `base` with `part` joined to it as a path (see `path_join`).
pub fn join(base: &str, part: &str) -> (r: String)
    ensures
        r@ == path_join(base@, part@),
{
    let b = chars_of(base);
    let p = chars_of(part);
    if p.len() > 0 && p[0] == '/' {
        return part.to_owned();
    }
    if b.len() == 0 {
        return part.to_owned();
    }
    let mut s = base.to_owned();
    if b[b.len() - 1] != '/' {
        s.append("/");
    }
    s.append(part);
    proof {
        reveal_strlit("/");
        if b@.last() != '/' {
            assert(s@ =~= base@ + seq!['/'] + part@);
        }
    }
    s
}

/// The sysroot of toolchain `toolchain` under runtime directory `runtime`.
pub fn sysroot_from_runtime(runtime: &str, toolchain: &str) -> (r: String)
    ensures
        r@ == path_join(path_join(runtime@, "sysroot"@), toolchain@),
{
    let s = join(runtime, "sysroot");
    join(s.as_str(), toolchain)
}

/// The directory that downloads are kept in under a runtime directory.
pub fn spool_dir_for_runtime(runtime: &str) -> (r: String)
    ensures
        r@ == path_join(path_join(runtime@, ".rustowl-cache"@), "downloads"@),
{
    let s = join(runtime, ".rustowl-cache");
    join(s.as_str(), "downloads")
}

/// The directory that components are extracted in under the download
/// directory.
pub fn extract_base_dir_for_spool(spool_dir: &str) -> (r: String)
    ensures
        r@ == path_join(spool_dir@, "extract"@),
{
    join(spool_dir, "extract")
}

/// The parts of path `p` between slashes, empty parts and `.` left out.
pub open spec fn path_parts(p: Seq<char>) -> Seq<Seq<char>> {
    let (done, cur) = parts_state(p);
    if cur.len() > 0 && cur != seq!['.'] {
        done.push(cur)
    } else {
        done
    }
}

/// The parts of `p` completed so far, and the part under way.
pub open spec fn parts_state(p: Seq<char>) -> (Seq<Seq<char>>, Seq<char>)
    decreases p.len(),
{
    if p.len() == 0 {
        (Seq::empty(), Seq::empty())
    } else {
        let (done, cur) = parts_state(p.drop_last());
        if p.last() == '/' {
            if cur.len() > 0 && cur != seq!['.'] {
                (done.push(cur), Seq::empty())
            } else {
                (done, Seq::empty())
            }
        } else {
            (done, cur.push(p.last()))
        }
    }
}

/// `dest` with each of `parts` joined in turn.
pub open spec fn join_all(dest: Seq<char>, parts: Seq<Seq<char>>) -> Seq<char>
    decreases parts.len(),
{
    if parts.len() == 0 {
        dest
    } else {
        path_join(join_all(dest, parts.drop_last()), parts.last())
    }
}

/// Where an archive entry at `path` goes under `dest`: nowhere (`Err`)
/// where the path is absolute, climbs with `..`, or names nothing but
/// `.`; otherwise `dest` with its parts joined.
pub open spec fn safe_join(dest: Seq<char>, path: Seq<char>) -> Result<Seq<char>, ()> {
    let parts = path_parts(path);
    if (path.len() > 0 && path[0] == '/') || exists|i: int| 0 <= i < parts.len() && parts[i] == ".."@ {
        Err(())
    } else if parts.len() == 0 {
        Err(())
    } else {
        Ok(join_all(dest, parts))
    }
}

/// Each part read so far, and the part under way, holds no slash; each
/// part read is not empty.
proof fn lemma_parts_state(p: Seq<char>)
    ensures
        forall|i: int|
            0 <= i < parts_state(p).0.len() ==> (#[trigger] parts_state(p).0[i]).len() > 0
                && !parts_state(p).0[i].contains('/'),
        !parts_state(p).1.contains('/'),
    decreases p.len(),
{
    if p.len() > 0 {
        lemma_parts_state(p.drop_last());
        let (done, cur) = parts_state(p.drop_last());
        if p.last() != '/' {
            assert forall|j: int| 0 <= j < cur.push(p.last()).len() implies cur.push(p.last())[j] != '/' by {
                if j < cur.len() {
                    assert(cur.push(p.last())[j] == cur[j]);
                }
            }
        } else if cur.len() > 0 && cur != seq!['.'] {
            assert forall|i: int| 0 <= i < done.push(cur).len() implies (#[trigger] done.push(cur)[i]).len() > 0
                && !done.push(cur)[i].contains('/') by {
                if i < done.len() {
                    assert(done.push(cur)[i] == done[i]);
                }
            }
        }
        assert(!Seq::<char>::empty().contains('/'));
    }
}

/// The parts of a path are not empty and hold no slash.
proof fn lemma_path_parts(p: Seq<char>)
    ensures
        forall|i: int|
            0 <= i < path_parts(p).len() ==> (#[trigger] path_parts(p)[i]).len() > 0 && !path_parts(
                p,
            )[i].contains('/'),
{
    lemma_parts_state(p);
    let (done, cur) = parts_state(p);
    if cur.len() > 0 && cur != seq!['.'] {
        assert forall|i: int| 0 <= i < done.push(cur).len() implies (#[trigger] done.push(cur)[i]).len() > 0
            && !done.push(cur)[i].contains('/') by {
            if i < done.len() {
                assert(done.push(cur)[i] == done[i]);
            }
        }
    }
}

/// Joining parts that do not start with a slash keeps `dest` in front, and
/// each part makes the path longer.
proof fn lemma_join_all_prefix(dest: Seq<char>, parts: Seq<Seq<char>>)
    requires
        dest.len() > 0,
        forall|i: int| 0 <= i < parts.len() ==> (#[trigger] parts[i]).len() > 0 && parts[i][0] != '/',
    ensures
        dest.is_prefix_of(join_all(dest, parts)),
        join_all(dest, parts).len() >= dest.len() + parts.len(),
    decreases parts.len(),
{
    if parts.len() > 0 {
        lemma_join_all_prefix(dest, parts.drop_last());
        let b = join_all(dest, parts.drop_last());
        let part = parts.last();
        assert(part == parts[parts.len() - 1]);
        let j = path_join(b, part);
        assert(b.is_prefix_of(j)) by {
            if b.last() == '/' {
                assert(j =~= b + part);
            } else {
                assert(j =~= b + seq!['/'] + part);
            }
            assert forall|i: int| 0 <= i < b.len() implies b[i] == j[i] by {}
        }
        assert forall|i: int| 0 <= i < dest.len() implies dest[i] == j[i] by {
            assert(dest[i] == b[i]);
        }
    }
}

/// An archive entry is only ever placed under the destination: where
/// `safe_join` gives a path, it is the destination followed by more, and no
/// part of the entry's path climbs with `..`.
pub proof fn law_safe_join_stays_inside(dest: Seq<char>, path: Seq<char>)
    requires
        dest.len() > 0,
    ensures
        safe_join(dest, path) matches Ok(p) ==> {
            &&& dest.is_prefix_of(p)
            &&& p.len() > dest.len()
            &&& forall|i: int| 0 <= i < path_parts(path).len() ==> path_parts(path)[i] != ".."@
        },
{
    let parts = path_parts(path);
    lemma_path_parts(path);
    assert forall|i: int| 0 <= i < parts.len() implies (#[trigger] parts[i]).len() > 0 && parts[i][0] != '/' by {
        if parts[i][0] == '/' {
            assert(parts[i].contains('/'));
        }
    }
    lemma_join_all_prefix(dest, parts);
}

/// The parts of `path` (see `path_parts`).
fn split_path(path: &str) -> (r: Vec<String>)
    ensures
        r@.map_values(|s: String| s@) == path_parts(path@),
{
    let cs = chars_of(path);
    let mut done: Vec<String> = Vec::new();
    let mut start: usize = 0;
    let mut i: usize = 0;
    proof {
        assert(path@.take(0) =~= Seq::<char>::empty());
    }
    while i < cs.len()
        invariant
            cs@ == path@,
            start <= i <= cs@.len(),
            done@.map_values(|s: String| s@) == parts_state(path@.take(i as int)).0,
            cs@.subrange(start as int, i as int) == parts_state(path@.take(i as int)).1,
        decreases cs@.len() - i,
    {
        proof {
            assert(path@.take(i + 1).drop_last() =~= path@.take(i as int));
        }
        if cs[i] == '/' {
            let n = i - start;
            let dot = n == 1 && cs[start] == '.';
            if n > 0 && !dot {
                let ghost before = done@;
                let part = string_of_range(&cs, start, i);
                done.push(part);
                proof {
                    assert(done@.map_values(|s: String| s@) =~= before.map_values(|s: String| s@).push(part@));
                }
            }
            proof {
                let cur = cs@.subrange(start as int, i as int);
                if dot {
                    assert(cur =~= seq!['.']);
                }
                if cur == seq!['.'] {
                    assert(cur[0] == '.' && cur.len() == 1);
                }
            }
            start = i + 1;
        }
        i = i + 1;
        proof {
            assert(cs@.subrange(start as int, i as int) =~= parts_state(path@.take(i as int)).1);
        }
    }
    proof {
        assert(path@.take(i as int) =~= path@);
    }
    let n = i - start;
    let dot = n == 1 && cs[start] == '.';
    proof {
        let cur = cs@.subrange(start as int, i as int);
        if dot {
            assert(cur =~= seq!['.']);
        }
        if cur == seq!['.'] {
            assert(cur[0] == '.' && cur.len() == 1);
        }
    }
    if n > 0 && !dot {
        let ghost before = done@;
        let part = string_of_range(&cs, start, i);
        done.push(part);
        proof {
            assert(done@.map_values(|s: String| s@) =~= before.map_values(|s: String| s@).push(part@));
        }
    }
    done
}

/// Where archive entry `path` is extracted under `dest` (see `safe_join`).
pub fn safe_join_tar_path(dest: &str, path: &str) -> (r: Result<String, ()>)
    ensures
        match safe_join(dest@, path@) {
            Ok(p) => r matches Ok(s) && s@ == p,
            Err(_) => r is Err,
        },
{
    let cs = chars_of(path);
    if cs.len() > 0 && cs[0] == '/' {
        return Err(());
    }
    let parts = split_path(path);
    let ghost pv = parts@.map_values(|s: String| s@);
    let dotdot = "..".to_owned();
    let mut out = dest.to_owned();
    let mut i: usize = 0;
    proof {
        assert(pv.take(0) =~= Seq::<Seq<char>>::empty());
    }
    while i < parts.len()
        invariant
            i <= parts@.len(),
            pv == parts@.map_values(|s: String| s@),
            pv == path_parts(path@),
            dotdot@ == ".."@,
            forall|j: int| 0 <= j < i ==> pv[j] != ".."@,
            out@ == join_all(dest@, pv.take(i as int)),
        decreases parts@.len() - i,
    {
        if parts[i] == dotdot {
            proof {
                assert(pv[i as int] == ".."@);
            }
            return Err(());
        }
        proof {
            assert(pv.take(i + 1).drop_last() =~= pv.take(i as int));
        }
        out = join(out.as_str(), parts[i].as_str());
        i = i + 1;
    }
    if parts.len() == 0 {
        return Err(());
    }
    proof {
        assert(pv.take(i as int) =~= pv);
    }
    Ok(out)
}

/// Where zip entry `filename` is extracted under `dest`: as for archive
/// entries (see `safe_join`).
pub fn safe_join_zip_path(dest: &str, filename: &str) -> (r: Result<String, ()>)
    ensures
        match safe_join(dest@, filename@) {
            Ok(p) => r matches Ok(s) && s@ == p,
            Err(_) => r is Err,
        },
{
    safe_join_tar_path(dest, filename)
}

/// The value that std's `DefaultHasher`, made with `new`, finishes with
/// after hashing string `s`.
pub uninterp spec fn default_hash_of(s: Seq<char>) -> u64;

/// Hashes `s` with a `DefaultHasher` made by `DefaultHasher::new` (the same
/// keys for every such hasher, so the same string gives the same value) and
/// returns what `finish` gives. What that value is, is not stated.
#[verifier::external_body]
fn default_hash(s: &str) -> (r: u64)
    ensures
        r == default_hash_of(s@),
{
    let mut hasher = std::collections::hash_map::DefaultHasher::new();
    s.hash(&mut hasher);
    hasher.finish()
}

/// The lower-case hexadecimal digit of `d`.
pub open spec fn hex_digit(d: nat) -> char {
    if d < 10 {
        ((d + 48) as u32) as char
    } else {
        ((d + 87) as u32) as char
    }
}

/// `n` in lower-case hexadecimal, 16 digits wide with leading zeros.
pub open spec fn hex16(n: u64) -> Seq<char> {
    Seq::new(16, |k: int| hex_digit(((n as nat) / pow16((15 - k) as nat)) % 16))
}

pub open spec fn pow16(e: nat) -> nat
    decreases e,
{
    if e == 0 {
        1
    } else {
        16 * pow16((e - 1) as nat)
    }
}

fn hex_char(d: u64) -> (c: char)
    requires
        d < 16,
    ensures
        c == hex_digit(d as nat),
{
    let chars: [char; 16] = ['0', '1', '2', '3', '4', '5', '6', '7', '8', '9', 'a', 'b', 'c', 'd', 'e', 'f'];
    let c = chars[d as usize];
    proof {
        assert(chars@[d as int] == c);
        if d == 0 { assert(c == '0'); }
        if d == 1 { assert(c == '1'); }
        if d == 2 { assert(c == '2'); }
        if d == 3 { assert(c == '3'); }
        if d == 4 { assert(c == '4'); }
        if d == 5 { assert(c == '5'); }
        if d == 6 { assert(c == '6'); }
        if d == 7 { assert(c == '7'); }
        if d == 8 { assert(c == '8'); }
        if d == 9 { assert(c == '9'); }
        if d == 10 { assert(c == 'a'); }
        if d == 11 { assert(c == 'b'); }
        if d == 12 { assert(c == 'c'); }
        if d == 13 { assert(c == 'd'); }
        if d == 14 { assert(c == 'e'); }
        if d == 15 { assert(c == 'f'); }
    }
    c
}

/// `n` in 16 lower-case hexadecimal digits.
pub fn hex16_string(n: u64) -> (r: String)
    ensures
        r@ == hex16(n),
{
    let mut digits: Vec<char> = Vec::new();
    let mut m: u64 = n;
    let mut k: usize = 0;
    proof {
        assert(pow16(0) == 1);
        assert((n as nat) / 1 == n as nat);
    }
    while k < 16
        invariant
            k <= 16,
            m as nat == (n as nat) / pow16(k as nat),
            digits@.len() == k,
            forall|j: int| 0 <= j < k ==> digits@[j] == hex_digit(((n as nat) / pow16(j as nat)) % 16),
        decreases 16 - k,
    {
        let d = m % 16;
        digits.push(hex_char(d));
        proof {
            lemma_div_pow16(n as nat, k as nat);
        }
        m = m / 16;
        k = k + 1;
    }
    let mut s = String::new();
    let mut i: usize = 0;
    while i < 16
        invariant
            i <= 16,
            digits@.len() == 16,
            forall|j: int| 0 <= j < 16 ==> digits@[j] == hex_digit(((n as nat) / pow16(j as nat)) % 16),
            s@ == Seq::new(i as nat, |t: int| hex_digit(((n as nat) / pow16((15 - t) as nat)) % 16)),
        decreases 16 - i,
    {
        s.push(digits[15 - i]);
        i = i + 1;
        proof {
            assert(s@ =~= Seq::new(i as nat, |t: int| hex_digit(((n as nat) / pow16((15 - t) as nat)) % 16)));
        }
    }
    s
}

proof fn lemma_div_pow16(n: nat, k: nat)
    ensures
        (n / pow16(k)) / 16 == n / pow16(k + 1),
        pow16(k) > 0,
    decreases k,
{
    if k > 0 {
        lemma_div_pow16(n, (k - 1) as nat);
    }
    assert(pow16(k + 1) == 16 * pow16(k));
    vstd::arithmetic::div_mod::lemma_div_denominator(n as int, pow16(k) as int, 16);
    assert(pow16(k) * 16 == 16 * pow16(k)) by (nonlinear_arith);
}

/// A character is a lower-case hexadecimal digit.
pub open spec fn is_hex_char(c: char) -> bool {
    ('0' <= c && c <= '9') || ('a' <= c && c <= 'f')
}

/// Sixteen hexadecimal digits, whatever the number.
pub proof fn law_hex16_shape(n: u64)
    ensures
        hex16(n).len() == 16,
        forall|i: int| 0 <= i < 16 ==> is_hex_char(#[trigger] hex16(n)[i]),
{
    assert forall|i: int| 0 <= i < 16 implies is_hex_char(#[trigger] hex16(n)[i]) by {
        let d = ((n as nat) / pow16((15 - i) as nat)) % 16;
        assert(d < 16);
        if d < 10 {
            assert(hex_digit(d) == ((d + 48) as u32) as char);
        } else {
            assert(hex_digit(d) == ((d + 87) as u32) as char);
        }
    }
}

/// The file name under which the download of `url` is kept: a hash of the
/// address in 16 lower-case hexadecimal digits.
pub fn hash_url_for_filename(url: &str) -> (r: String)
    ensures
        r@ == hex16(default_hash_of(url@)),
        r@.len() == 16,
        forall|i: int| 0 <= i < 16 ==> is_hex_char(#[trigger] r@[i]),
{
    let r = hex16_string(default_hash(url));
    proof {
        law_hex16_shape(default_hash_of(url@));
    }
    r
}

/// The words of `s`: the runs of characters between white space.
pub open spec fn words_of(s: Seq<char>) -> Seq<Seq<char>> {
    let (done, cur) = words_state(s);
    if cur.len() > 0 {
        done.push(cur)
    } else {
        done
    }
}

pub open spec fn words_state(s: Seq<char>) -> (Seq<Seq<char>>, Seq<char>)
    decreases s.len(),
{
    if s.len() == 0 {
        (Seq::empty(), Seq::empty())
    } else {
        let (done, cur) = words_state(s.drop_last());
        if is_space(s.last()) {
            if cur.len() > 0 {
                (done.push(cur), Seq::empty())
            } else {
                (done, Seq::empty())
            }
        } else {
            (done, cur.push(s.last()))
        }
    }
}

/// The words of `s` (see `words_of`).
pub fn split_whitespace(s: &str) -> (r: Vec<String>)
    ensures
        r@.map_values(|w: String| w@) == words_of(s@),
{
    let cs = chars_of(s);
    let mut done: Vec<String> = Vec::new();
    let mut start: usize = 0;
    let mut i: usize = 0;
    proof {
        assert(s@.take(0) =~= Seq::<char>::empty());
    }
    while i < cs.len()
        invariant
            cs@ == s@,
            start <= i <= cs@.len(),
            done@.map_values(|w: String| w@) == words_state(s@.take(i as int)).0,
            cs@.subrange(start as int, i as int) == words_state(s@.take(i as int)).1,
        decreases cs@.len() - i,
    {
        proof {
            assert(s@.take(i + 1).drop_last() =~= s@.take(i as int));
        }
        let c = cs[i];
        let sp = ('\u{9}' <= c && c <= '\u{d}') || c == ' ' || c == '\u{85}' || c == '\u{a0}' || c
            == '\u{1680}' || ('\u{2000}' <= c && c <= '\u{200a}') || c == '\u{2028}' || c == '\u{2029}'
            || c == '\u{202f}' || c == '\u{205f}' || c == '\u{3000}';
        if sp {
            if i > start {
                let ghost before = done@;
                let w = string_of_range(&cs, start, i);
                done.push(w);
                proof {
                    assert(done@.map_values(|w: String| w@) =~= before.map_values(|w: String| w@).push(w@));
                }
            }
            start = i + 1;
        }
        i = i + 1;
        proof {
            assert(cs@.subrange(start as int, i as int) =~= words_state(s@.take(i as int)).1);
        }
    }
    proof {
        assert(s@.take(i as int) =~= s@);
    }
    if i > start {
        let ghost before = done@;
        let w = string_of_range(&cs, start, i);
        done.push(w);
        proof {
            assert(done@.map_values(|w: String| w@) =~= before.map_values(|w: String| w@).push(w@));
        }
    }
    done
}

/// The words `ws`, each preceded by the unit separator.
pub open spec fn each_after_separator(ws: Seq<Seq<char>>) -> Seq<char>
    decreases ws.len(),
{
    if ws.len() == 0 {
        Seq::empty()
    } else {
        each_after_separator(ws.drop_last()) + seq!['\u{1f}'] + ws.last()
    }
}

/// The encoded flags cargo hands to the compiler: where more than one
/// compiler thread is asked for, `-Z threads=N` first; then the flags
/// already encoded, ended by the separator; then the sysroot; then the words
/// of `RUSTFLAGS`, each after the separator.
pub open spec fn encoded_flags(rustflags: Option<Seq<char>>, encoded: Option<Seq<char>>, threads: nat, sysroot: Seq<char>) -> Seq<char> {
    let words = match rustflags {
        Some(f) => words_of(f),
        None => Seq::empty(),
    };
    let given = match encoded {
        Some(e) => e + seq!['\u{1f}'],
        None => Seq::empty(),
    };
    let front = if 1 < threads {
        "-Z\u{1f}threads="@ + crate::text::decimal(threads) + seq!['\u{1f}'] + given
    } else {
        given
    };
    front + "--sysroot="@ + sysroot + each_after_separator(words)
}

/// The value of `CARGO_ENCODED_RUSTFLAGS` for cargo runs of the analysis,
/// given the values of `RUSTFLAGS` and `CARGO_ENCODED_RUSTFLAGS`.
pub fn cargo_encoded_rustflags(rustflags: Option<&str>, encoded: Option<&str>, rustc_threads: usize, sysroot: &str) -> (r: String)
    ensures
        r@ == encoded_flags(
            match rustflags {
                Some(f) => Some(f@),
                None => None,
            },
            match encoded {
                Some(e) => Some(e@),
                None => None,
            },
            rustc_threads as nat,
            sysroot@,
        ),
{
    let words = match rustflags {
        Some(f) => split_whitespace(f),
        None => Vec::new(),
    };
    let ghost wv = words@.map_values(|w: String| w@);
    let mut tail = String::new();
    let mut i: usize = 0;
    proof {
        assert(wv.take(0) =~= Seq::<Seq<char>>::empty());
    }
    while i < words.len()
        invariant
            i <= words@.len(),
            wv == words@.map_values(|w: String| w@),
            tail@ == each_after_separator(wv.take(i as int)),
        decreases words@.len() - i,
    {
        proof {
            assert(wv.take(i + 1).drop_last() =~= wv.take(i as int));
        }
        tail.push('\u{1f}');
        tail.append(words[i].as_str());
        i = i + 1;
    }
    proof {
        assert(wv.take(i as int) =~= wv);
        if rustflags is None {
            assert(wv =~= Seq::<Seq<char>>::empty());
        }
    }
    let mut front = String::new();
    if 1 < rustc_threads {
        front.append("-Z\u{1f}threads=");
        crate::text::push_decimal(&mut front, rustc_threads as u64);
        front.push('\u{1f}');
    }
    if let Some(e) = encoded {
        front.append(e);
        front.push('\u{1f}');
    }
    front.append("--sysroot=");
    front.append(sysroot);
    front.append(tail.as_str());
    proof {
        reveal_strlit("-Z\u{1f}threads=");
        reveal_strlit("--sysroot=");
    }
    front
}

/// `s` with ASCII small letters made capital.
pub open spec fn ascii_upper(s: Seq<char>) -> Seq<char> {
    s.map_values(|c: char| if 'a' <= c && c <= 'z' {
        ((c as u32) - 32) as char
    } else {
        c
    })
}

/// The environment variable that overrides where tool `name` is found:
/// `RUSTOWL_{NAME}_PATH`.
pub fn override_key(name: &str) -> (r: String)
    ensures
        r@ == "RUSTOWL_"@ + ascii_upper(name@) + "_PATH"@,
{
    let mut s = "RUSTOWL_".to_owned();
    let ghost s0 = s@;
    let mut k: usize = 0;
    let cs = chars_of(name);
    while k < cs.len()
        invariant
            k <= cs@.len(),
            cs@ == name@,
            s0 == "RUSTOWL_"@,
            s@ == s0 + ascii_upper(name@.take(k as int)),
        decreases cs@.len() - k,
    {
        let c = cs[k];
        let u = if 'a' <= c && c <= 'z' {
            ((c as u8) - 32) as char
        } else {
            c
        };
        s.push(u);
        k = k + 1;
        proof {
            assert(ascii_upper(name@.take(k as int)) =~= ascii_upper(name@.take(k - 1)).push(u));
            assert(s@ =~= s0 + ascii_upper(name@.take(k as int)));
        }
    }
    s.append("_PATH");
    proof {
        assert(name@.take(k as int) =~= name@);
    }
    s
}

/// The places tool `exec_name` is looked for, in order (after a path set
/// in its override variable): the sysroot's `bin`, the directory of the
/// running program, and the `target/debug` and `target/release` directories
/// of the working directory.
pub fn executable_candidates(exec_name: &str, sysroot: &str, exe_dir: &str, cwd: &str) -> (r: Vec<String>)
    ensures
        r@.map_values(|p: String| p@) == seq![
            path_join(path_join(sysroot@, "bin"@), exec_name@),
            path_join(exe_dir@, exec_name@),
            path_join(path_join(path_join(cwd@, "target"@), "debug"@), exec_name@),
            path_join(path_join(path_join(cwd@, "target"@), "release"@), exec_name@),
        ],
{
    let bin = join(sysroot, "bin");
    let a = join(bin.as_str(), exec_name);
    let b = join(exe_dir, exec_name);
    let target = join(cwd, "target");
    let debug = join(target.as_str(), "debug");
    let c = join(debug.as_str(), exec_name);
    let release = join(target.as_str(), "release");
    let d = join(release.as_str(), exec_name);
    let r = vec![a, b, c, d];
    assert(r@.map_values(|p: String| p@) =~= seq![
        path_join(path_join(sysroot@, "bin"@), exec_name@),
        path_join(exe_dir@, exec_name@),
        path_join(path_join(path_join(cwd@, "target"@), "debug"@), exec_name@),
        path_join(path_join(path_join(cwd@, "target"@), "release"@), exec_name@),
    ]);
    r
}

/// The library search path with the sysroot's library directory put
/// first: `dir`, a colon, and the path that was set (empty if none).
pub fn prepend_library_path(existing: Option<&str>, dir: &str) -> (r: String)
    ensures
        r@ == dir@ + ":"@ + match existing {
            Some(e) => e@,
            None => Seq::<char>::empty(),
        },
{
    let mut s = dir.to_owned();
    s.append(":");
    if let Some(e) = existing {
        s.append(e);
    }
    proof {
        if existing is None {
            assert(s@ =~= dir@ + ":"@ + Seq::<char>::empty());
        }
    }
    s
}

/// Where Rust's distribution files are: under the dated directory where a
/// date is given.
pub fn dist_base_url(date: Option<&str>) -> (r: String)
    ensures
        r@ == match date {
            Some(d) => "https://static.rust-lang.org/dist/"@ + d@,
            None => "https://static.rust-lang.org/dist"@,
        },
{
    match date {
        Some(d) => {
            let mut s = "https://static.rust-lang.org/dist/".to_owned();
            s.append(d);
            s
        },
        None => "https://static.rust-lang.org/dist".to_owned(),
    }
}

/// The directory a component unpacks to, `{component}-{channel}-{host}`,
/// and the address of its archive under `base_url`.
pub fn component_archive(component: &str, channel: &str, host: &str, base_url: &str) -> (r: (String, String))
    ensures
        r.0@ == component@ + "-"@ + channel@ + "-"@ + host@,
        r.1@ == base_url@ + "/"@ + r.0@ + ".tar.gz"@,
{
    let mut name = component.to_owned();
    name.append("-");
    name.append(channel);
    name.append("-");
    name.append(host);
    let mut url = base_url.to_owned();
    url.append("/");
    url.append(name.as_str());
    url.append(".tar.gz");
    (name, url)
}

/// The address of the released analysis toolchain of version `version`
/// for host `host`, as a zip archive or a gzipped tarball.
pub fn rustowl_archive_url(version: &str, host: &str, zip: bool) -> (r: String)
    ensures
        r@ == "https://github.com/cordx56/rustowl/releases/download/v"@ + version@ + "/rustowl-"@
            + host@ + (if zip {
            ".zip"@
        } else {
            ".tar.gz"@
        }),
{
    let mut s = "https://github.com/cordx56/rustowl/releases/download/v".to_owned();
    s.append(version);
    s.append("/rustowl-");
    s.append(host);
    if zip {
        s.append(".zip");
    } else {
        s.append(".tar.gz");
    }
    s
}

/// The limits of a download: its size, the retries after a broken
/// transfer, and the wait before the first retry (later ones wait that
/// many times longer).
#[derive(Clone, Copy, PartialEq, Eq, Debug, Structural)]
pub struct DownloadCaps {
    pub max_download: u64,
    pub max_retries: usize,
    pub retry_backoff_ms: u64,
}

impl DownloadCaps {
    /// 2 GB, five retries, a quarter of a second.
    pub fn default_caps() -> (r: Self)
        ensures
            r.max_download == 2_000_000_000,
            r.max_retries == 5,
            r.retry_backoff_ms == 250,
    {
        DownloadCaps { max_download: 2_000_000_000, max_retries: 5, retry_backoff_ms: 250 }
    }
}

/// What to do with the answer to a request that resumes a download.
#[derive(Clone, Copy, PartialEq, Eq, Debug, Structural)]
pub enum ResumeReply {
    /// The server sends the rest (206): go on.
    Resume,
    /// The file is already complete (416).
    Complete,
    /// The server sends the whole file (200): start again from nothing.
    Restart,
    /// Anything else: give up.
    Fail,
}

/// What an answer with HTTP status `status` to a resuming request means.
pub fn resume_reply(status: u16) -> (r: ResumeReply)
    ensures
        r == if status == 206 {
            ResumeReply::Resume
        } else if status == 416 {
            ResumeReply::Complete
        } else if status == 200 {
            ResumeReply::Restart
        } else {
            ResumeReply::Fail
        },
{
    if status == 206 {
        ResumeReply::Resume
    } else if status == 416 {
        ResumeReply::Complete
    } else if status == 200 {
        ResumeReply::Restart
    } else {
        ResumeReply::Fail
    }
}

/// What to do with the answer to a retry after a broken transfer.
#[derive(Clone, Copy, PartialEq, Eq, Debug, Structural)]
pub enum RetryReply {
    /// 206: go on from where the transfer broke.
    Resume,
    /// 200: start again from nothing.
    Restart,
    /// Another success or redirection: give up.
    Fail,
    /// An error status (400 or above): try again.
    Again,
}

/// What an answer with HTTP status `status` to a retry means.
pub fn retry_reply(status: u16) -> (r: RetryReply)
    ensures
        r == if status >= 400 {
            RetryReply::Again
        } else if status == 206 {
            RetryReply::Resume
        } else if status == 200 {
            RetryReply::Restart
        } else {
            RetryReply::Fail
        },
{
    if status >= 400 {
        RetryReply::Again
    } else if status == 206 {
        RetryReply::Resume
    } else if status == 200 {
        RetryReply::Restart
    } else {
        RetryReply::Fail
    }
}

/// The size the download will have once the answer's body is in, where the
/// answer says how long it is (saturating).
pub fn expected_total(downloaded: u64, content_length: Option<u64>) -> (r: Option<u64>)
    ensures
        r == match content_length {
            Some(v) => Some(if downloaded + v <= u64::MAX {
                (downloaded + v) as u64
            } else {
                u64::MAX
            }),
            None => None,
        },
{
    match content_length {
        Some(v) => Some(
            if downloaded == 0 {
                v
            } else {
                match downloaded.checked_add(v) {
                    Some(t) => t,
                    None => u64::MAX,
                }
            },
        ),
        None => None,
    }
}

/// The bytes downloaded after a chunk of `len` more (saturating), and
/// whether that is still within the cap.
pub fn after_chunk(downloaded: u64, len: u64, cap: u64) -> (r: (u64, bool))
    ensures
        r.0 == (if downloaded + len <= u64::MAX {
            (downloaded + len) as u64
        } else {
            u64::MAX
        }),
        r.1 == (r.0 <= cap),
{
    let n = match downloaded.checked_add(len) {
        Some(t) => t,
        None => u64::MAX,
    };
    (n, n <= cap)
}

/// The `Range` header value that asks for the bytes from `from` on.
pub fn range_header(from: u64) -> (r: String)
    ensures
        r@ == "bytes="@ + crate::text::decimal(from as nat) + "-"@,
{
    let mut s = "bytes=".to_owned();
    crate::text::push_decimal(&mut s, from);
    s.append("-");
    s
}

/// The wait before retry `attempt`, in milliseconds: the backoff that many
/// times over.
pub fn retry_wait_ms(caps: DownloadCaps, attempt: u32) -> (r: u64)
    requires
        caps.retry_backoff_ms * attempt <= u64::MAX,
    ensures
        r == caps.retry_backoff_ms * attempt,
{
    caps.retry_backoff_ms * (attempt as u64)
}

/// What a download does after one answer.
#[derive(Clone, Copy, PartialEq, Eq, Debug, Structural)]
pub enum DownloadAction {
    /// The file is complete.
    Done,
    /// Give up.
    Fail,
    /// Ask again after waiting `wait_ms`, as attempt number `attempt`.
    Retry { attempt: u32, wait_ms: u64 },
    /// Write the body: appended to what is there, or from nothing where
    /// `restart`.
    Write { restart: bool },
    /// The body would take the file past the size cap.
    TooLarge,
}

/// Writing a body of `body_len` bytes onto `downloaded` bytes (none where
/// `restart`), unless the total, counted saturating, passes the size cap.
pub open spec fn write_action(downloaded: u64, restart: bool, body_len: u64, caps: DownloadCaps) -> DownloadAction {
    let base: int = if restart {
        0
    } else {
        downloaded as int
    };
    let total: int = if base + body_len <= u64::MAX {
        base + body_len
    } else {
        u64::MAX as int
    };
    if total <= caps.max_download {
        DownloadAction::Write { restart }
    } else {
        DownloadAction::TooLarge
    }
}

/// What a download of which `downloaded` bytes are on disk does after an
/// answer with status `status` and a body of `body_len` bytes, having
/// retried `attempt` times: a resuming request goes on (206), is complete
/// (416), starts again (200) or fails; a first request is retried after an
/// error status (400 or above) while retries and the wait are left, starts
/// from nothing on 200 or 206, and fails otherwise.
pub open spec fn download_next(downloaded: u64, status: u16, attempt: u32, body_len: u64, caps: DownloadCaps) -> DownloadAction {
    if downloaded > 0 {
        if status == 206 {
            write_action(downloaded, false, body_len, caps)
        } else if status == 416 {
            DownloadAction::Done
        } else if status == 200 {
            write_action(downloaded, true, body_len, caps)
        } else {
            DownloadAction::Fail
        }
    } else if status >= 400 {
        if attempt >= caps.max_retries || attempt == u32::MAX || caps.retry_backoff_ms * (attempt + 1) > u64::MAX {
            DownloadAction::Fail
        } else {
            DownloadAction::Retry {
                attempt: (attempt + 1) as u32,
                wait_ms: (caps.retry_backoff_ms * (attempt + 1)) as u64,
            }
        }
    } else if status == 206 || status == 200 {
        write_action(downloaded, true, body_len, caps)
    } else {
        DownloadAction::Fail
    }
}

fn write_step(downloaded: u64, restart: bool, body_len: u64, caps: DownloadCaps) -> (r: DownloadAction)
    ensures
        r == write_action(downloaded, restart, body_len, caps),
{
    let base = if restart {
        0
    } else {
        downloaded
    };
    let (_, within) = after_chunk(base, body_len, caps.max_download);
    if within {
        DownloadAction::Write { restart }
    } else {
        DownloadAction::TooLarge
    }
}

/// The decision of one step of a download (see `download_next`).
pub fn download_step(downloaded: u64, status: u16, attempt: u32, body_len: u64, caps: DownloadCaps) -> (r: DownloadAction)
    ensures
        r == download_next(downloaded, status, attempt, body_len, caps),
{
    if downloaded > 0 {
        match resume_reply(status) {
            ResumeReply::Resume => write_step(downloaded, false, body_len, caps),
            ResumeReply::Complete => DownloadAction::Done,
            ResumeReply::Restart => write_step(downloaded, true, body_len, caps),
            ResumeReply::Fail => DownloadAction::Fail,
        }
    } else {
        match retry_reply(status) {
            RetryReply::Restart | RetryReply::Resume => write_step(downloaded, true, body_len, caps),
            RetryReply::Fail => DownloadAction::Fail,
            RetryReply::Again => {
                if attempt as usize >= caps.max_retries || attempt == u32::MAX {
                    DownloadAction::Fail
                } else {
                    let next = attempt + 1;
                    match caps.retry_backoff_ms.checked_mul(next as u64) {
                        None => DownloadAction::Fail,
                        Some(_) => DownloadAction::Retry { attempt: next, wait_ms: retry_wait_ms(caps, next) },
                    }
                }
            },
        }
    }
}

} // verus!

