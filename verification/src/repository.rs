//! Repository-backed grounding validation.
//!
//! This module holds the decisions of the filesystem-backed grounding
//! validator: which repository probes a grounding calls for, in what order,
//! and what verdict follows from their answers. The filesystem walk itself
//! (reading directories and files) is performed by the caller, who answers
//! each probe and hands the answer back; what a file's text answers is
//! decided here too ([`text_contains`], [`text_has_anchor`]).
//!
//! Telescope anchors are nominal: a file anchors an entry when it holds the
//! marker `@sirno:` followed by the entry's exact id, not by a longer id
//! that starts with it.
//!
//! Literal grep patterns, glob path patterns, and telescope anchors are
//! checked against the workspace. Regex grep patterns are skipped and left
//! to agent inspection rather than treated as commit blockers.

use vstd::prelude::*;
use vstd::string::StringSliceAdditionalSpecFns;

use crate::entry::EntryId;
use crate::grounding::{
    grounding_fault, reports, Fault, Grounding, GroundingValidationError, SearchPattern, Span,
    SpanBound, TelescopeGrounding, Witness,
};
use crate::text::{chars_of, str_eq};

verus! {

/// Whether `t[i..]` matches the shell-style wildcard pattern `p[j..]`, where
/// `*` matches any sequence of bytes and `?` matches exactly one byte.
pub open spec fn glob_from(t: Seq<u8>, p: Seq<u8>, i: int, j: int) -> bool
    decreases (t.len() - i) + (p.len() - j),
    when 0 <= i <= t.len() && 0 <= j <= p.len()
{
    if j == p.len() {
        i == t.len()
    } else if p[j] == 42u8 {
        glob_from(t, p, i, j + 1) || (i < t.len() && glob_from(t, p, i + 1, j))
    } else {
        i < t.len() && (p[j] == 63u8 || p[j] == t[i]) && glob_from(t, p, i + 1, j + 1)
    }
}

/// Whether the whole of `t` matches the wildcard pattern `p`.
pub open spec fn glob_matches(t: Seq<u8>, p: Seq<u8>) -> bool {
    glob_from(t, p, 0, 0)
}

/// `t[i..i+n]` matches `p[j..j+n]` position by position, and that part of the
/// pattern holds no `*`.
pub open spec fn literal_run(t: Seq<u8>, p: Seq<u8>, i: int, j: int, n: int) -> bool {
    forall|q: int|
        0 <= q < n ==> #[trigger] p[j + q] != 42u8 && (p[j + q] == 63u8 || p[j + q] == t[i + q])
}

/// A `*` at `j` may absorb any number of bytes: matching from a later
/// position implies matching from an earlier one.
proof fn lemma_star_absorbs(t: Seq<u8>, p: Seq<u8>, i: int, x: int, j: int)
    requires
        0 <= j < p.len(),
        p[j] == 42u8,
        0 <= i <= x <= t.len(),
        glob_from(t, p, x, j),
    ensures
        glob_from(t, p, i, j),
    decreases x - i,
{
    if i < x {
        lemma_star_absorbs(t, p, i + 1, x, j);
    }
}

/// A match through a `*` at `s` continues with the rest of the pattern from
/// some later position.
proof fn lemma_star_witness(t: Seq<u8>, p: Seq<u8>, i: int, s: int) -> (k: int)
    requires
        0 <= s < p.len(),
        p[s] == 42u8,
        0 <= i <= t.len(),
        glob_from(t, p, i, s),
    ensures
        i <= k <= t.len(),
        glob_from(t, p, k, s + 1),
    decreases t.len() - i,
{
    if glob_from(t, p, i, s + 1) {
        i
    } else {
        lemma_star_witness(t, p, i + 1, s)
    }
}

/// A star-free stretch of the pattern consumes exactly as many bytes as it
/// is long.
proof fn lemma_literal_forward(t: Seq<u8>, p: Seq<u8>, k: int, j: int, n: int)
    requires
        0 <= n,
        0 <= j,
        j + n <= p.len(),
        0 <= k <= t.len(),
        forall|q: int| 0 <= q < n ==> #[trigger] p[j + q] != 42u8,
        glob_from(t, p, k, j),
    ensures
        k + n <= t.len(),
        glob_from(t, p, k + n, j + n),
        literal_run(t, p, k, j, n),
    decreases n,
{
    if n > 0 {
        assert(p[j + 0] != 42u8);
        assert forall|q: int| 0 <= q < n - 1 implies #[trigger] p[(j + 1) + q] != 42u8 by {
            assert(p[j + (q + 1)] != 42u8);
        }
        lemma_literal_forward(t, p, k + 1, j + 1, n - 1);
        assert forall|q: int| 0 <= q < n implies #[trigger] p[j + q] != 42u8 && (p[j + q] == 63u8
            || p[j + q] == t[k + q]) by {
            if q > 0 {
                assert(p[(j + 1) + (q - 1)] != 42u8);
            }
        }
    }
}

/// The converse: a literal stretch followed by a match is a match.
proof fn lemma_literal_backward(t: Seq<u8>, p: Seq<u8>, k: int, j: int, n: int)
    requires
        0 <= n,
        0 <= j,
        j + n <= p.len(),
        0 <= k,
        k + n <= t.len(),
        literal_run(t, p, k, j, n),
        glob_from(t, p, k + n, j + n),
    ensures
        glob_from(t, p, k, j),
    decreases n,
{
    if n > 0 {
        assert forall|q: int| 0 <= q < n - 1 implies #[trigger] p[(j + 1) + q] != 42u8 && (p[(j + 1)
            + q] == 63u8 || p[(j + 1) + q] == t[(k + 1) + q]) by {
            assert(p[j + (q + 1)] != 42u8);
        }
        lemma_literal_backward(t, p, k + 1, j + 1, n - 1);
        assert(p[j + 0] != 42u8);
    }
}

/// Match `text` against the shell-style wildcard pattern `pattern`, where
/// `*` matches any sequence of bytes and `?` matches exactly one byte.
pub fn wildcard_matches_bytes(text: &[u8], pattern: &[u8]) -> (r: bool)
    ensures
        r == glob_matches(text@, pattern@),
{
    let ghost t = text@;
    let ghost p = pattern@;
    let mut text_index: usize = 0;
    let mut pattern_index: usize = 0;
    let mut star_index: Option<usize> = None;
    let mut match_index: usize = 0;

    while text_index < text.len()
        invariant
            t == text@,
            p == pattern@,
            text_index <= t.len(),
            pattern_index <= p.len(),
            match_index <= text_index,
            match star_index {
                None => {
                    &&& match_index == 0
                    &&& glob_matches(t, p) == glob_from(t, p, text_index as int, pattern_index as int)
                },
                Some(s) => {
                    &&& s < pattern_index
                    &&& p[s as int] == 42u8
                    &&& pattern_index - (s + 1) == text_index - match_index
                    &&& literal_run(t, p, match_index as int, s + 1, text_index - match_index)
                    &&& glob_matches(t, p) == glob_from(t, p, match_index as int, s as int)
                },
            },
        decreases t.len() - match_index, (p.len() - pattern_index) + (t.len() - text_index),
    {
        if pattern_index < pattern.len() && pattern[pattern_index] == 42u8 {
            proof {
                let ti: int = text_index as int;
                let pi: int = pattern_index as int;
                if let Some(s) = star_index {
                    let mi: int = match_index as int;
                    let n: int = ti - mi;
                    if glob_from(t, p, mi, s as int) {
                        let k: int = lemma_star_witness(t, p, mi, s as int);
                        assert forall|q: int| 0 <= q < n implies #[trigger] p[(s + 1) + q] != 42u8 by {
                            assert(p[(s + 1) + q] != 42u8 && (p[(s + 1) + q] == 63u8 || p[(s + 1) + q] == t[mi + q]));
                        }
                        lemma_literal_forward(t, p, k, s + 1, n);
                        lemma_star_absorbs(t, p, ti, k + n, pi);
                    }
                    if glob_from(t, p, ti, pi) {
                        lemma_literal_backward(t, p, mi, s + 1, n);
                    }
                }
            }
            star_index = Some(pattern_index);
            pattern_index += 1;
            match_index = text_index;
        } else if pattern_index < pattern.len() && (pattern[pattern_index] == 63u8
            || pattern[pattern_index] == text[text_index]) {
            proof {
                if let Some(s) = star_index {
                    let mi: int = match_index as int;
                    let n: int = text_index - match_index;
                    assert forall|q: int| 0 <= q < n + 1 implies #[trigger] p[(s + 1) + q] != 42u8 && (p[(s + 1) + q] == 63u8 || p[(s + 1) + q] == t[mi + q]) by {
                        if q < n {
                            assert(p[(s + 1) + q] != 42u8 && (p[(s + 1) + q] == 63u8 || p[(s + 1) + q] == t[mi + q]));
                        }
                    }
                }
            }
            text_index += 1;
            pattern_index += 1;
        } else if let Some(star) = star_index {
            proof {
                let ti: int = text_index as int;
                let pi: int = pattern_index as int;
                let mi: int = match_index as int;
                let s: int = star as int;
                let n: int = ti - mi;
                assert(!glob_from(t, p, ti, pi));
                if glob_from(t, p, mi, s + 1) {
                    assert forall|q: int| 0 <= q < n implies #[trigger] p[(s + 1) + q] != 42u8 by {
                        assert(p[(s + 1) + q] != 42u8 && (p[(s + 1) + q] == 63u8 || p[(s + 1) + q] == t[mi + q]));
                    }
                    lemma_literal_forward(t, p, mi, s + 1, n);
                }
                assert(glob_from(t, p, mi, s) == (glob_from(t, p, mi, s + 1) || glob_from(t, p, mi + 1, s)));
            }
            pattern_index = star + 1;
            match_index += 1;
            text_index = match_index;
            proof {
                assert(literal_run(t, p, match_index as int, star + 1, 0));
            }
        } else {
            return false;
        }
    }

    proof {
        if let Some(s) = star_index {
            let mi: int = match_index as int;
            let n: int = t.len() - mi;
            let s: int = s as int;
            assert forall|q: int| 0 <= q < n implies #[trigger] p[(s + 1) + q] != 42u8 by {
                assert(p[(s + 1) + q] != 42u8 && (p[(s + 1) + q] == 63u8 || p[(s + 1) + q] == t[mi + q]));
            }
            if glob_from(t, p, mi, s + 1) {
                lemma_literal_forward(t, p, mi, s + 1, n);
            }
            if glob_from(t, p, t.len() as int, pattern_index as int) {
                lemma_literal_backward(t, p, mi, s + 1, n);
            }
            if mi < t.len() && glob_from(t, p, mi + 1, s) {
                let k: int = lemma_star_witness(t, p, mi + 1, s);
                lemma_literal_forward(t, p, k, s + 1, n);
            }
            assert(glob_from(t, p, mi, s) == (glob_from(t, p, mi, s + 1) || (mi < t.len() && glob_from(t, p, mi + 1, s))));
        }
        assert(glob_matches(t, p) == glob_from(t, p, t.len() as int, pattern_index as int));
    }

    while pattern_index < pattern.len() && pattern[pattern_index] == 42u8
        invariant
            t == text@,
            p == pattern@,
            pattern_index <= p.len(),
            glob_matches(t, p) == glob_from(t, p, t.len() as int, pattern_index as int),
        decreases p.len() - pattern_index,
    {
        pattern_index += 1;
    }

    pattern_index == pattern.len()
}

/// Match `text` against a shell-style wildcard pattern with `*` and `?`,
/// byte by byte.
pub fn wildcard_matches(text: &str, pattern: &str) -> (r: bool)
    ensures
        r == glob_matches(text.spec_bytes(), pattern.spec_bytes()),
{
    wildcard_matches_bytes(text.as_bytes(), pattern.as_bytes())
}


/// The primary separator of path components on this platform.
///
/// Calls `std::path::MAIN_SEPARATOR`, which std documents as `/` on Unix
/// and `\` on Windows; the contract claims it is one of these two.
#[verifier::external_body]
fn main_separator() -> (r: char)
    ensures
        r == '/' || r == '\\',
{
    std::path::MAIN_SEPARATOR
}

/// `bytes` with every occurrence of `sep` replaced by `/`.
pub open spec fn normalize_separator(bytes: Seq<u8>, sep: u8) -> Seq<u8> {
    bytes.map_values(|b: u8| if b == sep { 47u8 } else { b })
}

/// `s` with every `from` replaced by `to`, as `str::replace` gives it for a
/// one-character pattern.
pub open spec fn replace_char(s: Seq<char>, from: char, to: char) -> Seq<char> {
    s.map_values(|c: char| if c == from { to } else { c })
}

proof fn lemma_multibyte_encoding_bytes_are_high(x: u32)
    by (bit_vector)
    ensures
        (0xC0u8 | ((x >> 6) & 0x1F) as u8) >= 0x80u8,
        (0xE0u8 | ((x >> 12) & 0x0F) as u8) >= 0x80u8,
        (0xF0u8 | ((x >> 18) & 0x7) as u8) >= 0x80u8,
        (0x80u8 | (x & 0x3F) as u8) >= 0x80u8,
        (0x80u8 | ((x >> 6) & 0x3F) as u8) >= 0x80u8,
        (0x80u8 | ((x >> 12) & 0x3F) as u8) >= 0x80u8,
{
}

proof fn lemma_ascii_byte(x: u32)
    by (bit_vector)
    requires
        x < 128,
    ensures
        (x & 0x7F) as u8 == x as u8,
        (x as u8) as u32 == x,
{
}

/// Normalizing the ASCII separator `sep` in the encoding of one character
/// is encoding the character with `sep` replaced by `/`.
proof fn lemma_normalize_scalar(c: char, sep: char)
    requires
        (sep as u32) < 128,
    ensures
        normalize_separator(vstd::utf8::encode_scalar(c as u32), sep as u8)
            == vstd::utf8::encode_scalar((if c == sep { '/' } else { c }) as u32),
{
    let v = c as u32;
    let e = vstd::utf8::encode_scalar(v);
    let sb = sep as u8;
    lemma_ascii_byte(sep as u32);
    assert(sb as u32 == sep as u32);
    if v < 128 {
        lemma_ascii_byte(v);
        assert(e =~= seq![v as u8]);
        if c == sep {
            lemma_ascii_byte(47u32);
            assert(('/' as u32) == 47u32);
            assert(normalize_separator(e, sb) =~= seq![47u8]);
        } else {
            assert((v as u8) as u32 == v);
            assert(v as u8 != sb);
            assert(normalize_separator(e, sb) =~= e);
        }
    } else {
        lemma_multibyte_encoding_bytes_are_high(v);
        assert(c != sep);
        assert forall|k: int| 0 <= k < e.len() implies e[k] != sb by {
            assert(e[k] >= 0x80u8);
        }
        assert(normalize_separator(e, sb) =~= e);
    }
}

/// Replacing the ASCII character `sep` by `/` in a text replaces that byte
/// by `/` in its UTF-8 encoding: byte-wise normalization is `str::replace`
/// on the text.
pub proof fn lemma_normalize_is_char_replace(s: Seq<char>, sep: char)
    requires
        (sep as u32) < 128,
    ensures
        vstd::utf8::encode_utf8(replace_char(s, sep, '/')) == normalize_separator(
            vstd::utf8::encode_utf8(s),
            sep as u8,
        ),
    decreases s.len(),
{
    let r = replace_char(s, sep, '/');
    if s.len() > 0 {
        lemma_normalize_is_char_replace(s.drop_first(), sep);
        lemma_normalize_scalar(s[0], sep);
        assert(r.drop_first() =~= replace_char(s.drop_first(), sep, '/'));
        let head = vstd::utf8::encode_scalar(s[0] as u32);
        let tail = vstd::utf8::encode_utf8(s.drop_first());
        assert(normalize_separator(head + tail, sep as u8) =~= normalize_separator(head, sep as u8)
            + normalize_separator(tail, sep as u8));
    } else {
        assert(r =~= s);
        assert(normalize_separator(vstd::utf8::encode_utf8(s), sep as u8) =~= seq![]);
    }
}

fn replace_separator(bytes: &[u8], sep: u8) -> (r: Vec<u8>)
    ensures
        r@ == normalize_separator(bytes@, sep),
{
    let mut out: Vec<u8> = Vec::new();
    let mut i: usize = 0;
    while i < bytes.len()
        invariant
            i <= bytes@.len(),
            out@ == normalize_separator(bytes@.take(i as int), sep),
        decreases bytes@.len() - i,
    {
        let b: u8 = bytes[i];
        if b == sep {
            out.push(47u8);
        } else {
            out.push(b);
        }
        proof {
            assert(normalize_separator(bytes@.take(i + 1), sep) =~= normalize_separator(
                bytes@.take(i as int),
                sep,
            ).push(if b == sep { 47u8 } else { b }));
        }
        i += 1;
    }
    proof {
        assert(bytes@.take(i as int) =~= bytes@);
    }
    out
}

/// Whether `path` matches the glob `pattern` once every `sep` in both has
/// been replaced by `/`: wildcard matching of the replaced texts.
pub open spec fn glob_matches_with_separator(path: Seq<char>, pattern: Seq<char>, sep: char) -> bool {
    glob_matches(
        vstd::utf8::encode_utf8(replace_char(path, sep, '/')),
        vstd::utf8::encode_utf8(replace_char(pattern, sep, '/')),
    )
}

/// Match a relative path against a glob pattern once the ASCII separator
/// `sep` has been normalized to `/` in both.
pub fn path_matches_glob_with(path: &str, pattern: &str, sep: char) -> (r: bool)
    requires
        (sep as u32) < 128,
    ensures
        r == glob_matches(
            normalize_separator(path.spec_bytes(), sep as u8),
            normalize_separator(pattern.spec_bytes(), sep as u8),
        ),
        r == glob_matches_with_separator(path@, pattern@, sep),
{
    proof {
        lemma_normalize_is_char_replace(path@, sep);
        lemma_normalize_is_char_replace(pattern@, sep);
    }
    let sep_byte: u8 = sep as u8;
    let text = replace_separator(path.as_bytes(), sep_byte);
    let glob = replace_separator(pattern.as_bytes(), sep_byte);
    wildcard_matches_bytes(text.as_slice(), glob.as_slice())
}

/// Match a relative path against a glob pattern, with the platform's path
/// separator normalized to `/` in both. Where the separator is `/` this is
/// [`wildcard_matches`] on the texts as they are; where it is `\`, on the
/// texts with every `\` replaced by `/`.
pub fn path_matches_glob(path: &str, pattern: &str) -> (r: bool)
    ensures
        r == glob_matches(path.spec_bytes(), pattern.spec_bytes())
            || r == glob_matches_with_separator(path@, pattern@, '\\'),
{
    let sep: char = main_separator();
    proof {
        assert(replace_char(path@, '/', '/') =~= path@);
        assert(replace_char(pattern@, '/', '/') =~= pattern@);
    }
    path_matches_glob_with(path, pattern, sep)
}

/// Whether a directory with this file name is skipped while walking the
/// workspace: repository metadata and build output (`.git`, `.jj`,
/// `target`).
pub fn should_skip_dir(file_name: Option<&str>) -> (r: bool)
    ensures
        r == (file_name matches Some(n) && (n@ == ".git"@ || n@ == ".jj"@ || n@ == "target"@)),
{
    match file_name {
        Some(name) => str_eq(name, ".git") || str_eq(name, ".jj") || str_eq(name, "target"),
        None => false,
    }
}

/// The comment marker that anchors `entry` in source text.
pub open spec fn marker_text(entry: Seq<char>) -> Seq<char> {
    "@sirno:"@ + entry
}

/// The comment marker that anchors `entry` in source text: `@sirno:` followed
/// by the entry id.
pub fn telescope_marker(entry: &EntryId) -> (r: String)
    ensures
        r@ == marker_text(entry@),
{
    let mut marker = String::from_str("@sirno:");
    marker.append(entry.as_str());
    marker
}

/// Whether `c` could continue an entry id written after a marker: an ASCII
/// letter or digit, `-` or `_`. A marker followed by such a character names
/// a longer id, not the entry itself.
pub open spec fn continues_id(c: char) -> bool {
    ('a' <= c && c <= 'z') || ('A' <= c && c <= 'Z') || ('0' <= c && c <= '9') || c == '-'
        || c == '_'
}

/// Whether the marker of `entry` stands in `text` at position `i` as a whole
/// id: the marker is there, and what follows it (if anything) cannot
/// continue an id.
pub open spec fn anchor_at(text: Seq<char>, entry: Seq<char>, i: int) -> bool {
    let m = marker_text(entry);
    &&& 0 <= i
    &&& i + m.len() <= text.len()
    &&& text.subrange(i, i + m.len()) == m
    &&& (i + m.len() == text.len() || !continues_id(text[i + m.len()]))
}

/// Whether `text` anchors `entry`: its marker stands somewhere in the text
/// as a whole id.
pub open spec fn has_anchor(text: Seq<char>, entry: Seq<char>) -> bool {
    exists|i: int| #[trigger] anchor_at(text, entry, i)
}

fn is_id_char(c: char) -> (r: bool)
    ensures
        r == continues_id(c),
{
    ('a' <= c && c <= 'z') || ('A' <= c && c <= 'Z') || ('0' <= c && c <= '9') || c == '-'
        || c == '_'
}

/// Whether `m` occurs in `t` at position `i`.
fn occurs_at(t: &Vec<char>, m: &Vec<char>, i: usize) -> (r: bool)
    requires
        i + m@.len() <= t@.len(),
    ensures
        r == (t@.subrange(i as int, i + m@.len()) == m@),
{
    let n = t.len();
    let mut k: usize = 0;
    while k < m.len()
        invariant
            k <= m@.len(),
            n == t@.len(),
            i + m@.len() <= t@.len(),
            forall|j: int| 0 <= j < k ==> t@[i + j] == m@[j],
        decreases m@.len() - k,
    {
        if t[i + k] != m[k] {
            assert(t@.subrange(i as int, i + m@.len())[k as int] != m@[k as int]);
            return false;
        }
        k += 1;
    }
    assert(t@.subrange(i as int, i + m@.len()) =~= m@);
    true
}

/// Whether `needle` occurs in `text` at position `i`.
pub open spec fn occurs_in_at(text: Seq<char>, needle: Seq<char>, i: int) -> bool {
    &&& 0 <= i
    &&& i + needle.len() <= text.len()
    &&& text.subrange(i, i + needle.len()) == needle
}

/// Whether `needle` occurs somewhere in `text`.
pub open spec fn contains_text(text: Seq<char>, needle: Seq<char>) -> bool {
    exists|i: int| #[trigger] occurs_in_at(text, needle, i)
}

/// Whether `needle` occurs in `text`, as `str::contains` answers for a
/// string pattern; the empty needle occurs in every text.
pub fn text_contains(text: &str, needle: &str) -> (r: bool)
    ensures
        r == contains_text(text@, needle@),
{
    let t = chars_of(text);
    let m = chars_of(needle);
    if m.len() == 0 {
        assert(text@.subrange(0, 0) =~= needle@);
        assert(occurs_in_at(text@, needle@, 0));
        return true;
    }
    if m.len() > t.len() {
        assert forall|j: int| !occurs_in_at(text@, needle@, j) by {}
        return false;
    }
    let last = t.len() - m.len();
    let mut i: usize = 0;
    while i <= last
        invariant
            t@ == text@,
            m@ == needle@,
            m@.len() > 0,
            t@.len() <= usize::MAX,
            last + m@.len() == t@.len(),
            i <= last + 1,
            forall|j: int| 0 <= j < i ==> !occurs_in_at(text@, needle@, j),
        decreases last + 1 - i,
    {
        if occurs_at(&t, &m, i) {
            assert(occurs_in_at(text@, needle@, i as int));
            return true;
        }
        i += 1;
    }
    assert forall|j: int| !occurs_in_at(text@, needle@, j) by {}
    false
}

/// A needle placed anywhere in a text is found there; a needle longer than
/// the text is never found; the empty needle is found in every text.
pub proof fn lemma_contains_text_laws(prefix: Seq<char>, needle: Seq<char>, rest: Seq<char>)
    ensures
        contains_text(prefix + needle + rest, needle),
        contains_text(prefix, Seq::<char>::empty()),
        needle.len() > prefix.len() ==> !contains_text(prefix, needle),
{
    let t = prefix + needle + rest;
    let i = prefix.len() as int;
    assert(t.subrange(i, i + needle.len()) =~= needle);
    assert(occurs_in_at(t, needle, i));
    assert(prefix.subrange(0, 0) =~= Seq::<char>::empty());
    assert(occurs_in_at(prefix, Seq::<char>::empty(), 0));
}

/// Whether `text` holds the anchor marker of `entry` as a whole id: the
/// marker `@sirno:` followed by the id, and after it the end of the text or
/// a character that cannot continue an id (see [`continues_id`]). A marker
/// of a longer id that merely starts with this one does not count.
pub fn text_has_anchor(text: &str, entry: &EntryId) -> (r: bool)
    ensures
        r == has_anchor(text@, entry@),
{
    let t = chars_of(text);
    let marker = telescope_marker(entry);
    let m = chars_of(marker.as_str());
    proof {
        reveal_strlit("@sirno:");
    }
    assert(m@.len() > 0);
    if m.len() > t.len() {
        assert forall|j: int| !anchor_at(text@, entry@, j) by {}
        return false;
    }
    let last = t.len() - m.len();
    let mut i: usize = 0;
    while i <= last
        invariant
            t@ == text@,
            m@ == marker_text(entry@),
            m@.len() > 0,
            t@.len() <= usize::MAX,
            last + m@.len() == t@.len(),
            i <= last + 1,
            forall|j: int| 0 <= j < i ==> !anchor_at(text@, entry@, j),
        decreases last + 1 - i,
    {
        if occurs_at(&t, &m, i) {
            let end = i + m.len();
            if end == t.len() || !is_id_char(t[end]) {
                assert(anchor_at(text@, entry@, i as int));
                return true;
            }
        }
        i += 1;
    }
    assert forall|j: int| !anchor_at(text@, entry@, j) by {}
    false
}

/// Anchors are nominal: the marker of an id written only with id characters
/// anchors that id and no other, in particular no shorter id that it
/// starts with.
pub proof fn lemma_marker_anchors_only_its_id(a: Seq<char>, b: Seq<char>)
    requires
        forall|k: int| 0 <= k < b.len() ==> continues_id(#[trigger] b[k]),
    ensures
        has_anchor(marker_text(b), a) <==> a == b,
{
    reveal_strlit("@sirno:");
    let text = marker_text(b);
    let p = "@sirno:"@;
    assert(p.len() == 7);
    assert forall|k: int| 7 <= k < text.len() implies continues_id(#[trigger] text[k]) by {
        assert(text[k] == b[k - 7]);
    }
    if a == b {
        assert(text.subrange(0, text.len() as int) =~= text);
        assert(anchor_at(text, b, 0));
    }
    if has_anchor(text, a) {
        let i = choose|i: int| anchor_at(text, a, i);
        let m = marker_text(a);
        assert(m[0] == '@');
        assert(text.subrange(i, i + m.len())[0] == m[0]);
        assert(text[i] == '@');
        assert(!continues_id('@'));
        assert(i == 0) by {
            if i >= 7 {
                assert(continues_id(text[i]));
            } else if i > 0 {
                assert(text[i] == p[i]);
            }
        }
        assert forall|k: int| 0 <= k < a.len() implies a[k] == b[k] by {
            assert(text.subrange(0, m.len() as int)[k + 7] == m[k + 7]);
        }
        if a.len() < b.len() {
            assert(continues_id(text[m.len() as int]));
        }
        assert(a =~= b);
    }
}

/// Only ASCII letters and digits, `-` and `_` continue an id: whitespace,
/// punctuation and every other character end it.
pub proof fn lemma_id_characters(c: char)
    ensures
        continues_id(c) ==> (('a' <= c && c <= 'z') || ('A' <= c && c <= 'Z') || ('0' <= c && c
            <= '9') || c == '-' || c == '_'),
{
}

/// A marker followed by a character that is not an ASCII letter, digit,
/// `-` or `_` (a space, a newline, punctuation), or standing at the end of
/// the text, anchors its entry, whatever surrounds it.
pub proof fn lemma_marker_anchors_its_entry(prefix: Seq<char>, b: Seq<char>, c: char, rest: Seq<char>)
    requires
        !(('a' <= c && c <= 'z') || ('A' <= c && c <= 'Z') || ('0' <= c && c <= '9') || c == '-'
            || c == '_'),
    ensures
        has_anchor(prefix + marker_text(b) + seq![c] + rest, b),
        has_anchor(prefix + marker_text(b), b),
{
    let m = marker_text(b);
    let i = prefix.len() as int;
    let t1 = prefix + m + seq![c] + rest;
    assert(t1.subrange(i, i + m.len()) =~= m);
    assert(t1[i + m.len()] == c);
    assert(anchor_at(t1, b, i));
    let t2 = prefix + m;
    assert(t2.subrange(i, i + m.len()) =~= m);
    assert(anchor_at(t2, b, i));
}

/// A text that anchors an entry contains the entry's marker.
pub proof fn lemma_anchor_contains_marker(text: Seq<char>, b: Seq<char>)
    ensures
        has_anchor(text, b) ==> contains_text(text, "@sirno:"@ + b),
{
    if has_anchor(text, b) {
        let i = choose|i: int| anchor_at(text, b, i);
        assert(occurs_in_at(text, "@sirno:"@ + b, i));
    }
}

// ---------------------------------------------------------------------------
// Repository checks
// ---------------------------------------------------------------------------

/// A question about the workspace that the caller answers by inspecting it.
#[derive(Debug, PartialEq, Eq)]
pub enum Probe {
    /// Does some file in the workspace contain this text (see
    /// [`text_contains`])?
    FileContains(String),
    /// Does some file in the workspace hold the anchor marker of this entry
    /// as a whole id (see [`text_has_anchor`])?
    HasAnchor(EntryId),
    /// Does the relative path of some file match this glob pattern (see
    /// [`path_matches_glob`])?
    PathMatches(String),
}

impl Clone for Probe {
    fn clone(&self) -> (r: Self)
        ensures
            r@ == self@,
    {
        match self {
            Probe::FileContains(s) => Probe::FileContains(s.clone()),
            Probe::HasAnchor(e) => Probe::HasAnchor(e.clone()),
            Probe::PathMatches(s) => Probe::PathMatches(s.clone()),
        }
    }
}

/// Mathematical model of a probe.
pub enum ProbeModel {
    FileContains(Seq<char>),
    HasAnchor(Seq<char>),
    PathMatches(Seq<char>),
}

impl View for Probe {
    type V = ProbeModel;

    open spec fn view(&self) -> ProbeModel {
        match self {
            Probe::FileContains(s) => ProbeModel::FileContains(s@),
            Probe::HasAnchor(e) => ProbeModel::HasAnchor(e@),
            Probe::PathMatches(s) => ProbeModel::PathMatches(s@),
        }
    }
}

/// A probe in a check's plan; a witness probe reports any failure as a
/// witness mismatch.
pub struct PlannedProbe {
    pub probe: ProbeModel,
    pub witness: bool,
}

/// The probes a grep grounding calls for: one per literal or glob pattern,
/// in order; regex patterns are skipped.
pub open spec fn grep_plan(patterns: Seq<SearchPattern>) -> Seq<PlannedProbe>
    decreases patterns.len(),
{
    if patterns.len() == 0 {
        Seq::empty()
    } else {
        let rest = grep_plan(patterns.drop_last());
        match patterns.last() {
            SearchPattern::Literal(l) => rest.push(
                PlannedProbe { probe: ProbeModel::FileContains(l@), witness: false },
            ),
            SearchPattern::Glob(g) => rest.push(
                PlannedProbe { probe: ProbeModel::PathMatches(g@), witness: false },
            ),
            SearchPattern::Regex(_) => rest,
        }
    }
}

/// The probe a grep pattern calls for: a containment probe for a literal,
/// a path probe for a glob, none for a regex.
pub open spec fn pattern_probe(p: SearchPattern) -> Option<PlannedProbe> {
    match p {
        SearchPattern::Literal(l) => Some(
            PlannedProbe { probe: ProbeModel::FileContains(l@), witness: false },
        ),
        SearchPattern::Glob(g) => Some(
            PlannedProbe { probe: ProbeModel::PathMatches(g@), witness: false },
        ),
        SearchPattern::Regex(_) => None,
    }
}

/// Adding a pattern adds its probe, if it has one, at the end of the plan,
/// whatever patterns came before it.
pub proof fn lemma_grep_plan_push(patterns: Seq<SearchPattern>, p: SearchPattern)
    ensures
        grep_plan(patterns.push(p)) == match pattern_probe(p) {
            Some(q) => grep_plan(patterns).push(q),
            None => grep_plan(patterns),
        },
{
    assert(patterns.push(p).drop_last() =~= patterns);
}

/// The plan of two runs of patterns is the plan of the first followed by
/// the plan of the second.
pub proof fn lemma_grep_plan_concat(a: Seq<SearchPattern>, b: Seq<SearchPattern>)
    ensures
        grep_plan(a + b) == grep_plan(a) + grep_plan(b),
    decreases b.len(),
{
    if b.len() == 0 {
        assert(a + b =~= a);
        assert(grep_plan(a) + grep_plan(b) =~= grep_plan(a));
    } else {
        let c = b.drop_last();
        lemma_grep_plan_concat(a, c);
        assert(a + b =~= (a + c).push(b.last()));
        assert(b =~= c.push(b.last()));
        lemma_grep_plan_push(a + c, b.last());
        lemma_grep_plan_push(c, b.last());
        match pattern_probe(b.last()) {
            Some(q) => {
                assert(grep_plan(a) + grep_plan(c).push(q) =~= (grep_plan(a) + grep_plan(c)).push(q));
            },
            None => {},
        }
    }
}

/// A grep check probes every literal and glob pattern, once each and in
/// pattern order, and no regex pattern: the plan has one probe per
/// non-regex pattern.
pub proof fn lemma_grep_plan_probes_each_supported_pattern(patterns: Seq<SearchPattern>)
    ensures
        grep_plan(patterns) == patterns.filter_map(|p: SearchPattern| pattern_probe(p)),
        grep_plan(patterns).len() == patterns.filter(|p: SearchPattern| !(p is Regex)).len(),
    decreases patterns.len(),
{
    reveal(Seq::filter);
    if patterns.len() > 0 {
        let init = patterns.drop_last();
        lemma_grep_plan_probes_each_supported_pattern(init);
        assert(patterns =~= init.push(patterns.last()));
        lemma_grep_plan_push(init, patterns.last());
        match pattern_probe(patterns.last()) {
            Some(q) => {
                assert(init.filter_map(|p: SearchPattern| pattern_probe(p)) + seq![q]
                    =~= init.filter_map(|p: SearchPattern| pattern_probe(p)).push(q));
            },
            None => {},
        }
    }
}

/// The probe for one span bound: its anchor, if it has one.
pub open spec fn bound_plan(bound: SpanBound, witness: bool) -> Seq<PlannedProbe> {
    match bound {
        SpanBound::Anchor(anchor) => seq![
            PlannedProbe {
                probe: ProbeModel::HasAnchor(anchor.entry_id@),
                witness,
            },
        ],
        SpanBound::ScopeBoundary => Seq::empty(),
    }
}

/// The probes for a span: its start bound, then its end bound.
pub open spec fn span_plan(span: Span, witness: bool) -> Seq<PlannedProbe> {
    bound_plan(span.start, witness) + bound_plan(span.end, witness)
}

/// The probes for a sequence of spans, in order.
pub open spec fn spans_plan(spans: Seq<Span>) -> Seq<PlannedProbe>
    decreases spans.len(),
{
    if spans.len() == 0 {
        Seq::empty()
    } else {
        spans_plan(spans.drop_last()) + span_plan(spans.last(), false)
    }
}

/// The probes for a sequence of witnesses, in order.
pub open spec fn witnesses_plan(witnesses: Seq<Witness>) -> Seq<PlannedProbe>
    decreases witnesses.len(),
{
    if witnesses.len() == 0 {
        Seq::empty()
    } else {
        witnesses_plan(witnesses.drop_last()) + span_plan(witnesses.last().span, true)
    }
}

/// The probes a grounding calls for. A telescope grounding probes for its
/// anchor, then for the anchors of its spans, then for those of its
/// witnesses.
pub open spec fn probe_plan(grounding: Grounding) -> Seq<PlannedProbe> {
    match grounding {
        Grounding::Grep(g) => grep_plan(g.spec_patterns()),
        Grounding::Telescope(t) => seq![
            PlannedProbe {
                probe: ProbeModel::HasAnchor(t.anchor.entry_id@),
                witness: false,
            },
        ] + spans_plan(t.spans@) + witnesses_plan(t.witnesses@),
    }
}

/// The probes of a span: one anchor probe per anchored bound, the start's
/// before the end's, each carrying the span's witness flag; a bound at a
/// scope boundary calls for no probe.
pub proof fn lemma_span_plan_probes_anchored_bounds(span: Span, witness: bool)
    ensures
        span.start matches SpanBound::Anchor(a) ==> span.end matches SpanBound::Anchor(b)
            ==> span_plan(span, witness) == seq![
            PlannedProbe { probe: ProbeModel::HasAnchor(a.entry_id@), witness },
            PlannedProbe { probe: ProbeModel::HasAnchor(b.entry_id@), witness },
        ],
        span.start matches SpanBound::Anchor(a) ==> span.end is ScopeBoundary ==> span_plan(
            span,
            witness,
        ) == seq![PlannedProbe { probe: ProbeModel::HasAnchor(a.entry_id@), witness }],
        span.start is ScopeBoundary ==> (span.end matches SpanBound::Anchor(b) ==> span_plan(
            span,
            witness,
        ) == seq![PlannedProbe { probe: ProbeModel::HasAnchor(b.entry_id@), witness }]),
        span.start is ScopeBoundary ==> span.end is ScopeBoundary ==> span_plan(span, witness)
            == Seq::<PlannedProbe>::empty(),
{
    match span.start {
        SpanBound::Anchor(a) => match span.end {
            SpanBound::Anchor(b) => {
                assert(span_plan(span, witness) =~= seq![
                    PlannedProbe { probe: ProbeModel::HasAnchor(a.entry_id@), witness },
                    PlannedProbe { probe: ProbeModel::HasAnchor(b.entry_id@), witness },
                ]);
            },
            SpanBound::ScopeBoundary => {
                assert(span_plan(span, witness) =~= seq![
                    PlannedProbe { probe: ProbeModel::HasAnchor(a.entry_id@), witness },
                ]);
            },
        },
        SpanBound::ScopeBoundary => match span.end {
            SpanBound::Anchor(b) => {
                assert(span_plan(span, witness) =~= seq![
                    PlannedProbe { probe: ProbeModel::HasAnchor(b.entry_id@), witness },
                ]);
            },
            SpanBound::ScopeBoundary => {
                assert(span_plan(span, witness) =~= Seq::<PlannedProbe>::empty());
            },
        },
    }
}

/// The probes of two runs of spans are those of the first run followed by
/// those of the second; a single span contributes its own probes, not as a
/// witness.
pub proof fn lemma_spans_plan_concat(a: Seq<Span>, b: Seq<Span>)
    ensures
        spans_plan(a + b) == spans_plan(a) + spans_plan(b),
        forall|s: Span| #[trigger] spans_plan(seq![s]) == span_plan(s, false),
    decreases b.len(),
{
    assert forall|s: Span| #[trigger] spans_plan(seq![s]) == span_plan(s, false) by {
        assert(seq![s].drop_last() =~= Seq::<Span>::empty());
        assert(seq![s].last() == s);
        assert(spans_plan(Seq::<Span>::empty()) == Seq::<PlannedProbe>::empty());
        assert(Seq::<PlannedProbe>::empty() + span_plan(s, false) =~= span_plan(s, false));
    }
    if b.len() == 0 {
        assert(a + b =~= a);
        assert(spans_plan(a) + spans_plan(b) =~= spans_plan(a));
    } else {
        lemma_spans_plan_concat(a, b.drop_last());
        assert((a + b).drop_last() =~= a + b.drop_last());
        assert((a + b).last() == b.last());
        assert(spans_plan(a) + spans_plan(b.drop_last()) + span_plan(b.last(), false)
            =~= spans_plan(a) + (spans_plan(b.drop_last()) + span_plan(b.last(), false)));
    }
}

/// The probes of two runs of witnesses are those of the first run followed
/// by those of the second; a single witness contributes the probes of its
/// span, as a witness.
pub proof fn lemma_witnesses_plan_concat(a: Seq<Witness>, b: Seq<Witness>)
    ensures
        witnesses_plan(a + b) == witnesses_plan(a) + witnesses_plan(b),
        forall|w: Witness| #[trigger] witnesses_plan(seq![w]) == span_plan(w.span, true),
    decreases b.len(),
{
    assert forall|w: Witness| #[trigger] witnesses_plan(seq![w]) == span_plan(w.span, true) by {
        assert(seq![w].drop_last() =~= Seq::<Witness>::empty());
        assert(seq![w].last() == w);
        assert(witnesses_plan(Seq::<Witness>::empty()) == Seq::<PlannedProbe>::empty());
        assert(Seq::<PlannedProbe>::empty() + span_plan(w.span, true) =~= span_plan(w.span, true));
    }
    if b.len() == 0 {
        assert(a + b =~= a);
        assert(witnesses_plan(a) + witnesses_plan(b) =~= witnesses_plan(a));
    } else {
        lemma_witnesses_plan_concat(a, b.drop_last());
        assert((a + b).drop_last() =~= a + b.drop_last());
        assert((a + b).last() == b.last());
        assert(witnesses_plan(a) + witnesses_plan(b.drop_last()) + span_plan(b.last().span, true)
            =~= witnesses_plan(a) + (witnesses_plan(b.drop_last()) + span_plan(b.last().span, true)));
    }
}

/// A telescope check probes its own anchor first, then every anchored bound
/// of every span (as non-witness probes) and of every witness span (as
/// witness probes).
pub proof fn lemma_telescope_plan_covers_every_anchor(t: TelescopeGrounding)
    ensures
        probe_plan(Grounding::Telescope(t)).len() >= 1,
        probe_plan(Grounding::Telescope(t))[0] == (PlannedProbe {
            probe: ProbeModel::HasAnchor(t.anchor.entry_id@),
            witness: false,
        }),
        forall|i: int, q: PlannedProbe|
            0 <= i < t.spans@.len() && #[trigger] span_plan(t.spans@[i], false).contains(q)
                ==> probe_plan(Grounding::Telescope(t)).contains(q),
        forall|i: int, q: PlannedProbe|
            0 <= i < t.witnesses@.len() && #[trigger] span_plan(t.witnesses@[i].span, true).contains(q)
                ==> probe_plan(Grounding::Telescope(t)).contains(q),
{
    let head = seq![
        PlannedProbe { probe: ProbeModel::HasAnchor(t.anchor.entry_id@), witness: false },
    ];
    let sp = t.spans@;
    let ws = t.witnesses@;
    let plan = probe_plan(Grounding::Telescope(t));
    assert(plan == head + spans_plan(sp) + witnesses_plan(ws));
    assert(plan[0] == head[0]);
    assert forall|i: int, q: PlannedProbe|
        0 <= i < sp.len() && #[trigger] span_plan(sp[i], false).contains(q) implies plan.contains(q) by {
        let k = choose|k: int| 0 <= k < span_plan(sp[i], false).len() && span_plan(sp[i], false)[k] == q;
        assert(sp =~= sp.take(i) + (seq![sp[i]] + sp.skip(i + 1)));
        lemma_spans_plan_concat(sp.take(i), seq![sp[i]] + sp.skip(i + 1));
        lemma_spans_plan_concat(seq![sp[i]], sp.skip(i + 1));
        let before = head + spans_plan(sp.take(i));
        assert(plan == before + span_plan(sp[i], false) + spans_plan(sp.skip(i + 1)) + witnesses_plan(ws)) by {
            assert(spans_plan(sp) == spans_plan(sp.take(i)) + (span_plan(sp[i], false) + spans_plan(sp.skip(i + 1))));
            assert(head + spans_plan(sp) + witnesses_plan(ws) =~= before + span_plan(sp[i], false) + spans_plan(sp.skip(i + 1)) + witnesses_plan(ws));
        }
        assert(plan[before.len() + k] == q);
    }
    assert forall|i: int, q: PlannedProbe|
        0 <= i < ws.len() && #[trigger] span_plan(ws[i].span, true).contains(q) implies plan.contains(q) by {
        let k = choose|k: int| 0 <= k < span_plan(ws[i].span, true).len() && span_plan(ws[i].span, true)[k] == q;
        assert(ws =~= ws.take(i) + (seq![ws[i]] + ws.skip(i + 1)));
        lemma_witnesses_plan_concat(ws.take(i), seq![ws[i]] + ws.skip(i + 1));
        lemma_witnesses_plan_concat(seq![ws[i]], ws.skip(i + 1));
        let before = head + spans_plan(sp) + witnesses_plan(ws.take(i));
        assert(plan == before + span_plan(ws[i].span, true) + witnesses_plan(ws.skip(i + 1))) by {
            assert(witnesses_plan(ws) == witnesses_plan(ws.take(i)) + (span_plan(ws[i].span, true) + witnesses_plan(ws.skip(i + 1))));
            assert(head + spans_plan(sp) + witnesses_plan(ws) =~= before + span_plan(ws[i].span, true) + witnesses_plan(ws.skip(i + 1)));
        }
        assert(plan[before.len() + k] == q);
    }
}

/// Mathematical model of a step of a repository check: either a probe to
/// answer, or the verdict (`None` for success).
pub enum StepModel {
    Probe(ProbeModel),
    Done(Option<Fault>),
}

/// What a repository check asks for next, or its verdict.
#[derive(Debug)]
pub enum CheckStep {
    /// Answer this probe and hand the answer to [`RepositoryCheck::advance`].
    Probe(Probe),
    /// The check is over.
    Done(Result<(), GroundingValidationError>),
}

impl View for CheckStep {
    type V = StepModel;

    open spec fn view(&self) -> StepModel {
        match self {
            CheckStep::Probe(p) => StepModel::Probe(p@),
            CheckStep::Done(Ok(())) => StepModel::Done(None),
            CheckStep::Done(Err(e)) => StepModel::Done(Some(e@)),
        }
    }
}

/// Mathematical model of a repository check in progress.
pub struct CheckModel {
    /// The entry that owns the grounding.
    pub entry: Seq<char>,
    /// Grep checks succeed on the first hit; telescope checks fail on the
    /// first miss.
    pub any_hit: bool,
    /// The probes, in order.
    pub plan: Seq<PlannedProbe>,
    /// The index of the probe awaiting its answer.
    pub next: int,
    /// Whether the verdict has been given.
    pub done: bool,
}

/// The step a check takes when it reaches probe `next` of its plan.
pub open spec fn step_at(c: CheckModel, next: int) -> StepModel {
    if next < c.plan.len() {
        StepModel::Probe(c.plan[next].probe)
    } else if c.any_hit && c.plan.len() > 0 {
        StepModel::Done(Some(Fault::GrepMiss { entry: c.entry }))
    } else {
        StepModel::Done(None)
    }
}

/// The fault a telescope check reports when a probe finds nothing.
pub open spec fn miss_fault(c: CheckModel, p: PlannedProbe) -> Fault {
    if p.witness {
        Fault::WitnessMismatch { entry: c.entry }
    } else {
        Fault::MissingAnchor { entry: c.entry }
    }
}

/// The step that follows an answer to the awaited probe: `Ok(found)` when
/// the repository could be inspected, `Err(e)` when inspecting it failed.
pub open spec fn step_after(c: CheckModel, answer: Result<bool, Fault>) -> StepModel {
    match answer {
        Err(e) => if !c.any_hit && c.plan[c.next].witness {
            StepModel::Done(Some(Fault::WitnessMismatch { entry: c.entry }))
        } else {
            StepModel::Done(Some(e))
        },
        Ok(found) => if c.any_hit && found {
            StepModel::Done(None)
        } else if !c.any_hit && !found {
            StepModel::Done(Some(miss_fault(c, c.plan[c.next])))
        } else {
            step_at(c, c.next + 1)
        },
    }
}

/// Whether a step is a verdict.
pub open spec fn is_done(s: StepModel) -> bool {
    s is Done
}

struct PlannedQuery {
    probe: Probe,
    witness: bool,
}

spec fn query_plan(s: Seq<PlannedQuery>) -> Seq<PlannedProbe> {
    s.map_values(|q: PlannedQuery| PlannedProbe { probe: q.probe@, witness: q.witness })
}

/// A repository check of one grounding, driven by its caller: the check
/// names a probe, the caller answers it by inspecting the workspace, and the
/// check either names the next probe or gives its verdict.
pub struct RepositoryCheck {
    entry: EntryId,
    any_hit: bool,
    plan: Vec<PlannedQuery>,
    next: usize,
    done: bool,
}

impl View for RepositoryCheck {
    type V = CheckModel;

    closed spec fn view(&self) -> CheckModel {
        CheckModel {
            entry: self.entry@,
            any_hit: self.any_hit,
            plan: query_plan(self.plan@),
            next: self.next as int,
            done: self.done,
        }
    }
}

proof fn lemma_query_plan_push(s: Seq<PlannedQuery>, q: PlannedQuery)
    ensures
        query_plan(s.push(q)) == query_plan(s).push(PlannedProbe { probe: q.probe@, witness: q.witness }),
{
    assert(query_plan(s.push(q)) =~= query_plan(s).push(PlannedProbe { probe: q.probe@, witness: q.witness }));
}

fn push_bound(plan: &mut Vec<PlannedQuery>, bound: &SpanBound, witness: bool)
    ensures
        query_plan(final(plan)@) == query_plan(old(plan)@) + bound_plan(*bound, witness),
{
    match bound {
        SpanBound::Anchor(anchor) => {
            let q = PlannedQuery { probe: Probe::HasAnchor(anchor.entry_id.clone()), witness };
            proof {
                lemma_query_plan_push(plan@, q);
            }
            plan.push(q);
            proof {
                assert(query_plan(old(plan)@).push(PlannedProbe { probe: q.probe@, witness: q.witness })
                    =~= query_plan(old(plan)@) + bound_plan(*bound, witness));
            }
        },
        SpanBound::ScopeBoundary => {
            proof {
                assert(query_plan(plan@) =~= query_plan(plan@) + bound_plan(*bound, witness));
            }
        },
    }
}

fn push_span(plan: &mut Vec<PlannedQuery>, span: &Span, witness: bool)
    ensures
        query_plan(final(plan)@) == query_plan(old(plan)@) + span_plan(*span, witness),
{
    push_bound(plan, &span.start, witness);
    push_bound(plan, &span.end, witness);
    proof {
        assert(query_plan(old(plan)@) + bound_plan(span.start, witness) + bound_plan(span.end, witness)
            =~= query_plan(old(plan)@) + span_plan(*span, witness));
    }
}

fn plan_grounding(grounding: &Grounding) -> (r: Vec<PlannedQuery>)
    ensures
        query_plan(r@) == probe_plan(*grounding),
{
    let mut plan: Vec<PlannedQuery> = Vec::new();
    match grounding {
        Grounding::Grep(g) => {
            let patterns = g.patterns();
            let mut i: usize = 0;
            proof {
                assert(patterns@.take(0) =~= Seq::<SearchPattern>::empty());
                assert(query_plan(plan@) =~= Seq::empty());
            }
            while i < patterns.len()
                invariant
                    patterns@ == g.spec_patterns(),
                    i <= patterns@.len(),
                    query_plan(plan@) == grep_plan(patterns@.take(i as int)),
                decreases patterns@.len() - i,
            {
                proof {
                    assert(patterns@.take(i + 1).drop_last() =~= patterns@.take(i as int));
                    assert(patterns@.take(i + 1).last() == patterns@[i as int]);
                }
                match &patterns[i] {
                    SearchPattern::Literal(l) => {
                        let q = PlannedQuery { probe: Probe::FileContains(l.clone()), witness: false };
                        proof {
                            lemma_query_plan_push(plan@, q);
                        }
                        plan.push(q);
                    },
                    SearchPattern::Glob(glob) => {
                        let q = PlannedQuery { probe: Probe::PathMatches(glob.clone()), witness: false };
                        proof {
                            lemma_query_plan_push(plan@, q);
                        }
                        plan.push(q);
                    },
                    SearchPattern::Regex(_) => {},
                }
                i += 1;
            }
            proof {
                assert(patterns@.take(i as int) =~= patterns@);
            }
        },
        Grounding::Telescope(t) => {
            let q = PlannedQuery {
                probe: Probe::HasAnchor(t.anchor.entry_id.clone()),
                witness: false,
            };
            proof {
                lemma_query_plan_push(plan@, q);
                assert(query_plan(plan@.push(q)) =~= seq![
                    PlannedProbe {
                        probe: ProbeModel::HasAnchor(t.anchor.entry_id@),
                        witness: false,
                    },
                ]);
            }
            plan.push(q);
            let ghost head = query_plan(plan@);
            let mut i: usize = 0;
            proof {
                assert(t.spans@.take(0) =~= Seq::<Span>::empty());
                assert(head + spans_plan(t.spans@.take(0)) =~= head);
            }
            while i < t.spans.len()
                invariant
                    i <= t.spans@.len(),
                    query_plan(plan@) == head + spans_plan(t.spans@.take(i as int)),
                decreases t.spans@.len() - i,
            {
                push_span(&mut plan, &t.spans[i], false);
                proof {
                    assert(t.spans@.take(i + 1).drop_last() =~= t.spans@.take(i as int));
                    assert(t.spans@.take(i + 1).last() == t.spans@[i as int]);
                    assert(head + spans_plan(t.spans@.take(i as int)) + span_plan(t.spans@[i as int], false)
                        =~= head + spans_plan(t.spans@.take(i + 1)));
                }
                i += 1;
            }
            proof {
                assert(t.spans@.take(i as int) =~= t.spans@);
            }
            let ghost mid = query_plan(plan@);
            let mut j: usize = 0;
            proof {
                assert(t.witnesses@.take(0) =~= Seq::<Witness>::empty());
                assert(mid + witnesses_plan(t.witnesses@.take(0)) =~= mid);
            }
            while j < t.witnesses.len()
                invariant
                    j <= t.witnesses@.len(),
                    query_plan(plan@) == mid + witnesses_plan(t.witnesses@.take(j as int)),
                decreases t.witnesses@.len() - j,
            {
                push_span(&mut plan, &t.witnesses[j].span, true);
                proof {
                    assert(t.witnesses@.take(j + 1).drop_last() =~= t.witnesses@.take(j as int));
                    assert(t.witnesses@.take(j + 1).last() == t.witnesses@[j as int]);
                    assert(mid + witnesses_plan(t.witnesses@.take(j as int)) + span_plan(
                        t.witnesses@[j as int].span,
                        true,
                    ) =~= mid + witnesses_plan(t.witnesses@.take(j + 1)));
                }
                j += 1;
            }
            proof {
                assert(t.witnesses@.take(j as int) =~= t.witnesses@);
            }
        },
    }
    plan
}

impl RepositoryCheck {
    /// Whether the check still awaits an answer.
    pub open spec fn awaiting(self) -> bool {
        !self@.done && 0 <= self@.next < self@.plan.len()
    }

    /// Whether the check awaits the answer to a probe.
    pub fn awaiting_answer(&self) -> (r: bool)
        ensures
            r == self.awaiting(),
    {
        proof {
            assert(query_plan(self.plan@).len() == self.plan@.len());
        }
        !self.done && self.next < self.plan.len()
    }

    fn step(&mut self) -> (r: CheckStep)
        requires
            old(self).next <= old(self).plan@.len(),
            !old(self).done,
        ensures
            r@ == step_at(old(self)@, old(self)@.next),
            final(self)@ == (CheckModel { done: is_done(r@), ..old(self)@ }),
            !final(self)@.done ==> final(self).awaiting(),
    {
        if self.next < self.plan.len() {
            CheckStep::Probe(self.plan[self.next].probe.clone())
        } else {
            self.done = true;
            if self.any_hit && self.plan.len() > 0 {
                CheckStep::Done(Err(GroundingValidationError::GrepMiss { entry: self.entry.clone() }))
            } else {
                CheckStep::Done(Ok(()))
            }
        }
    }

    /// Begin checking `grounding`, owned by `entry`, against the repository.
    /// Structural faults are reported at once, without any probe; otherwise
    /// the check plans its probes ([`probe_plan`]) and names the first, or
    /// gives its verdict when there is none.
    pub fn start(entry: &EntryId, grounding: &Grounding) -> (r: (RepositoryCheck, CheckStep))
        ensures
            match grounding_fault(*grounding, entry@) {
                Some(f) => r.1@ == StepModel::Done(Some(f)) && r.0@.done,
                None => {
                    let c = CheckModel {
                        entry: entry@,
                        any_hit: grounding is Grep,
                        plan: probe_plan(*grounding),
                        next: 0,
                        done: is_done(r.1@),
                    };
                    &&& r.0@ == c
                    &&& r.1@ == step_at(c, 0)
                },
            },
            !r.0@.done ==> r.0.awaiting(),
    {
        let plan = plan_grounding(grounding);
        let any_hit = match grounding {
            Grounding::Grep(_) => true,
            Grounding::Telescope(_) => false,
        };
        let mut check = RepositoryCheck { entry: entry.clone(), any_hit, plan, next: 0, done: false };
        match grounding.validate_structure(entry) {
            Err(e) => {
                check.done = true;
                (check, CheckStep::Done(Err(e)))
            },
            Ok(()) => {
                let step = check.step();
                (check, step)
            },
        }
    }

    /// Hand the answer to the awaited probe to the check: `Ok(found)` when
    /// the repository could be inspected, `Err(e)` when inspecting it failed.
    /// Returns the next probe or the verdict ([`step_after`]).
    pub fn advance(&mut self, answer: Result<bool, GroundingValidationError>) -> (r: CheckStep)
        requires
            old(self).awaiting(),
        ensures
            r@ == step_after(
                old(self)@,
                match answer {
                    Ok(b) => Ok(b),
                    Err(e) => Err(e@),
                },
            ),
            final(self)@.entry == old(self)@.entry,
            final(self)@.any_hit == old(self)@.any_hit,
            final(self)@.plan == old(self)@.plan,
            final(self)@.done == is_done(r@),
            !final(self)@.done ==> final(self)@.next == old(self)@.next + 1 && final(self).awaiting(),
    {
        let planned: usize = self.plan.len();
        proof {
            assert(query_plan(self.plan@).len() == self.plan@.len());
            assert(self.next < planned);
        }
        let witness = self.plan[self.next].witness;
        match answer {
            Err(e) => {
                self.done = true;
                if !self.any_hit && witness {
                    CheckStep::Done(Err(GroundingValidationError::WitnessMismatch { entry: self.entry.clone() }))
                } else {
                    CheckStep::Done(Err(e))
                }
            },
            Ok(found) => {
                if self.any_hit && found {
                    self.done = true;
                    CheckStep::Done(Ok(()))
                } else if !self.any_hit && !found {
                    self.done = true;
                    if witness {
                        CheckStep::Done(Err(GroundingValidationError::WitnessMismatch { entry: self.entry.clone() }))
                    } else {
                        CheckStep::Done(Err(GroundingValidationError::MissingAnchor { entry: self.entry.clone() }))
                    }
                } else {
                    self.next = self.next + 1;
                    self.step()
                }
            },
        }
    }
}

#[verifier::external_type_specification]
#[verifier::external_body]
pub struct ExPathBuf(std::path::PathBuf);

/// `Clone::clone` of `std::path::PathBuf`, which returns a copy of the path.
/// The path is opaque to the proofs, so nothing is stated of the copy.
pub assume_specification[ <std::path::PathBuf as Clone>::clone ](p: &std::path::PathBuf) -> std::path::PathBuf;

/// Filesystem-backed grounding validator rooted at a workspace directory.
///
/// Structural grounding invariants are enforced first; then the files below
/// `root` are inspected to confirm that supported grep and telescope anchors
/// still resolve in source text ([`RepositoryCheck`]). Directories named by
/// [`should_skip_dir`] are not entered.
#[derive(Clone, Debug)]
pub struct WorkspaceGroundingValidator {
    root: std::path::PathBuf,
}

impl WorkspaceGroundingValidator {
    /// Construct a validator over `root`.
    ///
    /// `root` defines the repository view used for commit-time coherence.
    pub fn new(root: std::path::PathBuf) -> (r: WorkspaceGroundingValidator)
        ensures
            r.spec_root() == root,
    {
        WorkspaceGroundingValidator { root }
    }

    pub closed spec fn spec_root(&self) -> std::path::PathBuf {
        self.root
    }

    /// The workspace directory.
    pub fn root(&self) -> (r: &std::path::PathBuf)
        ensures
            *r == self.spec_root(),
    {
        &self.root
    }
}


/// A lone `*` matches every text.
pub proof fn lemma_star_matches_everything(t: Seq<u8>)
    ensures
        glob_matches(t, seq![42u8]),
{
    let p = seq![42u8];
    assert(glob_from(t, p, t.len() as int, 1));
    lemma_star_absorbs(t, p, 0, t.len() as int, 0);
}

/// A lone `?` matches exactly the texts of one byte.
pub proof fn lemma_question_mark_matches_one_byte(t: Seq<u8>)
    ensures
        glob_matches(t, seq![63u8]) <==> t.len() == 1,
{
    let p = seq![63u8];
    if t.len() >= 1 {
        assert(glob_from(t, p, 1, 1) <==> t.len() == 1);
    }
}

/// Whether a pattern holds no wildcard.
pub open spec fn wildcard_free(p: Seq<u8>) -> bool {
    forall|j: int| 0 <= j < p.len() ==> p[j] != 42u8 && p[j] != 63u8
}

/// A pattern without wildcards matches exactly the text equal to it.
pub proof fn lemma_literal_pattern_matches_only_itself(t: Seq<u8>, p: Seq<u8>)
    requires
        wildcard_free(p),
    ensures
        glob_matches(t, p) <==> t == p,
{
    assert forall|q: int| 0 <= q < p.len() implies #[trigger] p[0 + q] != 42u8 by {}
    if glob_matches(t, p) {
        lemma_literal_forward(t, p, 0, 0, p.len() as int);
        assert(glob_from(t, p, p.len() as int, p.len() as int));
        assert(t.len() == p.len());
        assert forall|q: int| 0 <= q < p.len() implies t[q] == p[q] by {
            assert(p[0 + q] == 63u8 || p[0 + q] == t[0 + q]);
        }
        assert(t =~= p);
    }
    if t == p {
        assert(literal_run(t, p, 0, 0, p.len() as int));
        lemma_literal_backward(t, p, 0, 0, p.len() as int);
    }
}

/// A grep grounding whose patterns are all regular expressions calls for no
/// probe, so it passes the repository check at once.
pub proof fn lemma_regex_only_plan_is_empty(patterns: Seq<SearchPattern>)
    requires
        forall|i: int| 0 <= i < patterns.len() ==> #[trigger] patterns[i] is Regex,
    ensures
        grep_plan(patterns).len() == 0,
    decreases patterns.len(),
{
    if patterns.len() > 0 {
        assert(patterns.last() is Regex);
        lemma_regex_only_plan_is_empty(patterns.drop_last());
    }
}


/// The step a check reaches when the probes from `c.next` on are answered,
/// in order, by `answers` (each meaning found or not found), stopping at
/// the first verdict.
pub open spec fn run_check(c: CheckModel, answers: Seq<bool>) -> StepModel
    decreases answers.len(),
{
    if answers.len() == 0 {
        step_at(c, c.next)
    } else {
        match step_after(c, Ok(answers[0])) {
            StepModel::Done(v) => StepModel::Done(v),
            StepModel::Probe(_) => run_check(CheckModel { next: c.next + 1, ..c }, answers.drop_first()),
        }
    }
}

/// A grep check passes exactly when one of its probes finds something or
/// it has no probe at all; otherwise it reports a grep miss.
pub proof fn lemma_grep_verdict(c: CheckModel, answers: Seq<bool>)
    requires
        c.any_hit,
        0 <= c.next <= c.plan.len(),
        answers.len() == c.plan.len() - c.next,
    ensures
        run_check(c, answers) == if c.plan.len() == 0 || exists|i: int| 0 <= i < answers.len() && answers[i] {
            StepModel::Done(None)
        } else {
            StepModel::Done(Some(Fault::GrepMiss { entry: c.entry }))
        },
    decreases answers.len(),
{
    if answers.len() > 0 {
        if !answers[0] {
            let d = CheckModel { next: c.next + 1, ..c };
            lemma_grep_verdict(d, answers.drop_first());
            if exists|i: int| 0 <= i < answers.len() && answers[i] {
                let i: int = choose|i: int| 0 <= i < answers.len() && answers[i];
                assert(answers.drop_first()[i - 1]);
            }
            if exists|i: int| 0 <= i < answers.drop_first().len() && answers.drop_first()[i] {
                let i: int = choose|i: int| 0 <= i < answers.drop_first().len() && answers.drop_first()[i];
                assert(answers[i + 1]);
            }
        }
    }
}

/// A telescope check passes exactly when every probe finds its anchor;
/// otherwise it reports the miss of the first probe that found nothing.
#[verifier::spinoff_prover]
#[verifier::rlimit(40)]
pub proof fn lemma_telescope_verdict(c: CheckModel, answers: Seq<bool>)
    requires
        !c.any_hit,
        0 <= c.next <= c.plan.len(),
        answers.len() == c.plan.len() - c.next,
    ensures
        (forall|i: int| 0 <= i < answers.len() ==> answers[i]) ==> run_check(c, answers)
            == StepModel::Done(None),
        forall|k: int|
            0 <= k < answers.len() && !answers[k] && (forall|i: int| 0 <= i < k ==> answers[i])
                ==> run_check(c, answers) == StepModel::Done(Some(miss_fault(c, c.plan[c.next + k]))),
    decreases answers.len(),
{
    if answers.len() > 0 {
        let d = CheckModel { next: c.next + 1, ..c };
        lemma_telescope_verdict(d, answers.drop_first());
        if forall|i: int| 0 <= i < answers.len() ==> answers[i] {
            assert(answers[0]);
            assert forall|i: int| 0 <= i < answers.drop_first().len() implies answers.drop_first()[i] by {
                assert(answers[i + 1]);
            }
        }
        assert forall|k: int|
            0 <= k < answers.len() && !answers[k] && (forall|i: int| 0 <= i < k ==> answers[i])
                implies run_check(c, answers) == StepModel::Done(Some(miss_fault(c, c.plan[c.next + k]))) by {
            if k > 0 {
                assert(answers[0]);
                assert(!answers.drop_first()[k - 1]);
                assert forall|i: int| 0 <= i < k - 1 implies answers.drop_first()[i] by {
                    assert(answers[i + 1]);
                }
                assert(d.plan[d.next + (k - 1)] == c.plan[c.next + k]);
            }
        }
    }
}

} // verus!
