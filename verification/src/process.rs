//! Process row ordering, filtering, command lines, ancestor chains and user names.

use vstd::prelude::*;
use vstd::utf8::*;
use std::cmp::Ordering;
use std::collections::{HashMap, HashSet};

use crate::model::{ProcRow, ProcStatus};
use crate::text::{decimal, push_decimal};

verus! {

/// Rank of a status in the process ordering: active states first.
pub open spec fn spec_status_priority(status: ProcStatus) -> u8 {
    match status {
        ProcStatus::Run => 0,
        ProcStatus::Sleep => 1,
        ProcStatus::Idle => 2,
        ProcStatus::Waking => 3,
        ProcStatus::Parked => 4,
        ProcStatus::Suspended => 5,
        ProcStatus::Stop => 6,
        ProcStatus::Tracing => 7,
        ProcStatus::UninterruptibleDiskSleep => 8,
        ProcStatus::LockBlocked => 9,
        ProcStatus::Wakekill => 10,
        ProcStatus::Zombie => 11,
        ProcStatus::Dead => 12,
        ProcStatus::Unknown(_) => 13,
    }
}

/// Priority rank used for row ordering by status.
pub fn status_priority(status: ProcStatus) -> (r: u8)
    ensures
        r == spec_status_priority(status),
{
    match status {
        ProcStatus::Run => 0,
        ProcStatus::Sleep => 1,
        ProcStatus::Idle => 2,
        ProcStatus::Waking => 3,
        ProcStatus::Parked => 4,
        ProcStatus::Suspended => 5,
        ProcStatus::Stop => 6,
        ProcStatus::Tracing => 7,
        ProcStatus::UninterruptibleDiskSleep => 8,
        ProcStatus::LockBlocked => 9,
        ProcStatus::Wakekill => 10,
        ProcStatus::Zombie => 11,
        ProcStatus::Dead => 12,
        ProcStatus::Unknown(_) => 13,
    }
}

/// Colour of the status dot drawn in front of each row.
#[derive(Clone, Copy, Debug, PartialEq, Eq, Structural)]
pub enum DotColor {
    /// Running.
    Green,
    /// Sleeping or idle.
    Yellow,
    /// Stopped, traced, dying or dead.
    Red,
    /// Every other state.
    DarkGray,
}

/// Colour group of a status.
pub open spec fn spec_status_dot_color(status: ProcStatus) -> DotColor {
    match status {
        ProcStatus::Run => DotColor::Green,
        ProcStatus::Sleep | ProcStatus::Idle => DotColor::Yellow,
        ProcStatus::Stop | ProcStatus::Tracing | ProcStatus::Zombie | ProcStatus::Dead
        | ProcStatus::Wakekill => DotColor::Red,
        _ => DotColor::DarkGray,
    }
}

/// Determine the table dot colour for a process status.
pub fn status_dot_color(status: ProcStatus) -> (r: DotColor)
    ensures
        r == spec_status_dot_color(status),
{
    match status {
        ProcStatus::Run => DotColor::Green,
        ProcStatus::Sleep | ProcStatus::Idle => DotColor::Yellow,
        ProcStatus::Stop | ProcStatus::Tracing | ProcStatus::Zombie | ProcStatus::Dead
        | ProcStatus::Wakekill => DotColor::Red,
        _ => DotColor::DarkGray,
    }
}

/// Three-way lexicographic comparison of byte sequences: -1, 0 or 1.
pub open spec fn byte_lex(a: Seq<u8>, b: Seq<u8>) -> int
    decreases a.len(),
{
    if a.len() == 0 {
        if b.len() == 0 { 0 } else { -1 }
    } else if b.len() == 0 {
        1
    } else if a[0] < b[0] {
        -1
    } else if a[0] > b[0] {
        1
    } else {
        byte_lex(a.drop_first(), b.drop_first())
    }
}

/// UTF-8 bytes of a string's text; `String`'s order is the order of these bytes.
pub open spec fn text_bytes(s: Seq<char>) -> Seq<u8> {
    encode_utf8(s)
}

/// Three-way comparison of two ordering keys by sign, `lt` first.
pub open spec fn three_way(a: int, b: int) -> int {
    if a < b { -1 } else if a > b { 1 } else { 0 }
}

/// Three-way comparison of rows: status priority, then higher cpu, then higher memory,
/// then name, then user, then pid.
pub open spec fn row_order(a: ProcRow, b: ProcRow) -> int {
    if spec_status_priority(a.status) != spec_status_priority(b.status) {
        three_way(spec_status_priority(a.status) as int, spec_status_priority(b.status) as int)
    } else if a.cpu_usage_tenths != b.cpu_usage_tenths {
        three_way(b.cpu_usage_tenths as int, a.cpu_usage_tenths as int)
    } else if a.memory_bytes != b.memory_bytes {
        three_way(b.memory_bytes as int, a.memory_bytes as int)
    } else if byte_lex(text_bytes(a.name@), text_bytes(b.name@)) != 0 {
        byte_lex(text_bytes(a.name@), text_bytes(b.name@))
    } else if byte_lex(text_bytes(a.user@), text_bytes(b.user@)) != 0 {
        byte_lex(text_bytes(a.user@), text_bytes(b.user@))
    } else {
        three_way(a.pid as int, b.pid as int)
    }
}

/// Lexicographic comparison of two byte slices, -1, 0 or 1.
fn compare_bytes(a: &[u8], b: &[u8]) -> (r: i8)
    ensures
        r as int == byte_lex(a@, b@),
{
    let mut i: usize = 0;
    assert(a@.skip(0) =~= a@);
    assert(b@.skip(0) =~= b@);
    while i < a.len() && i < b.len()
        invariant
            i <= a@.len(),
            i <= b@.len(),
            byte_lex(a@, b@) == byte_lex(a@.skip(i as int), b@.skip(i as int)),
        decreases a@.len() - i,
    {
        if a[i] < b[i] {
            return -1;
        }
        if a[i] > b[i] {
            return 1;
        }
        assert(a@.skip(i as int).drop_first() =~= a@.skip(i + 1));
        assert(b@.skip(i as int).drop_first() =~= b@.skip(i + 1));
        i = i + 1;
    }
    if i < a.len() {
        1
    } else if i < b.len() {
        -1
    } else {
        0
    }
}

/// Lexicographic comparison of the UTF-8 bytes of two strings, -1, 0 or 1.
fn compare_text(a: &String, b: &String) -> (r: i8)
    ensures
        r as int == byte_lex(text_bytes(a@), text_bytes(b@)),
{
    compare_bytes(a.as_str().as_bytes(), b.as_str().as_bytes())
}

/// Three-way comparison of rows as a number, -1, 0 or 1.
pub(crate) fn row_order_sign(a: &ProcRow, b: &ProcRow) -> (r: i8)
    ensures
        r as int == row_order(*a, *b),
{
    let pa = status_priority(a.status);
    let pb = status_priority(b.status);
    if pa != pb {
        return if pa < pb { -1 } else { 1 };
    }
    if a.cpu_usage_tenths != b.cpu_usage_tenths {
        return if b.cpu_usage_tenths < a.cpu_usage_tenths { -1 } else { 1 };
    }
    if a.memory_bytes != b.memory_bytes {
        return if b.memory_bytes < a.memory_bytes { -1 } else { 1 };
    }
    let by_name = compare_text(&a.name, &b.name);
    if by_name != 0 {
        return by_name;
    }
    let by_user = compare_text(&a.user, &b.user);
    if by_user != 0 {
        return by_user;
    }
    if a.pid < b.pid {
        -1
    } else if a.pid > b.pid {
        1
    } else {
        0
    }
}

/// Compare rows by activity, resource usage, and stable identity keys.
pub fn compare_rows(a: &ProcRow, b: &ProcRow) -> (r: Ordering)
    ensures
        (r == Ordering::Less) <==> row_order(*a, *b) < 0,
        (r == Ordering::Equal) <==> row_order(*a, *b) == 0,
        (r == Ordering::Greater) <==> row_order(*a, *b) > 0,
{
    let c = row_order_sign(a, b);
    if c < 0 {
        Ordering::Less
    } else if c > 0 {
        Ordering::Greater
    } else {
        Ordering::Equal
    }
}

} // verus!

verus! {

/// A byte sequence compares equal to itself.
pub proof fn lemma_byte_lex_reflexive(a: Seq<u8>)
    ensures
        byte_lex(a, a) == 0,
    decreases a.len(),
{
    if a.len() > 0 {
        lemma_byte_lex_reflexive(a.drop_first());
    }
}

/// Swapping the operands negates the byte comparison.
pub proof fn lemma_byte_lex_antisymmetric(a: Seq<u8>, b: Seq<u8>)
    ensures
        byte_lex(a, b) == -byte_lex(b, a),
    decreases a.len(),
{
    if a.len() > 0 && b.len() > 0 && a[0] == b[0] {
        lemma_byte_lex_antisymmetric(a.drop_first(), b.drop_first());
    }
}

/// The byte comparison is transitive, and strictly so when either step is strict.
pub proof fn lemma_byte_lex_transitive(a: Seq<u8>, b: Seq<u8>, c: Seq<u8>)
    requires
        byte_lex(a, b) <= 0,
        byte_lex(b, c) <= 0,
    ensures
        byte_lex(a, c) <= 0,
        (byte_lex(a, b) < 0 || byte_lex(b, c) < 0) ==> byte_lex(a, c) < 0,
    decreases a.len(),
{
    if a.len() > 0 && b.len() > 0 && c.len() > 0 && a[0] == b[0] && b[0] == c[0] {
        lemma_byte_lex_transitive(a.drop_first(), b.drop_first(), c.drop_first());
    }
}

/// A row compares equal to itself.
pub proof fn lemma_row_order_reflexive(a: ProcRow)
    ensures
        row_order(a, a) == 0,
{
    lemma_byte_lex_reflexive(text_bytes(a.name@));
    lemma_byte_lex_reflexive(text_bytes(a.user@));
}

/// Swapping the operands negates the row comparison.
pub proof fn lemma_row_order_antisymmetric(a: ProcRow, b: ProcRow)
    ensures
        row_order(a, b) == -row_order(b, a),
{
    lemma_byte_lex_antisymmetric(text_bytes(a.name@), text_bytes(b.name@));
    lemma_byte_lex_antisymmetric(text_bytes(a.user@), text_bytes(b.user@));
}

/// The row comparison is transitive, and strictly so when either step is strict.
pub proof fn lemma_row_order_transitive(a: ProcRow, b: ProcRow, c: ProcRow)
    requires
        row_order(a, b) <= 0,
        row_order(b, c) <= 0,
    ensures
        row_order(a, c) <= 0,
        (row_order(a, b) < 0 || row_order(b, c) < 0) ==> row_order(a, c) < 0,
{
    let (na, nb, nc) = (text_bytes(a.name@), text_bytes(b.name@), text_bytes(c.name@));
    let (ua, ub, uc) = (text_bytes(a.user@), text_bytes(b.user@), text_bytes(c.user@));
    lemma_byte_lex_antisymmetric(na, nb);
    lemma_byte_lex_antisymmetric(nb, nc);
    lemma_byte_lex_antisymmetric(na, nc);
    lemma_byte_lex_antisymmetric(ua, ub);
    lemma_byte_lex_antisymmetric(ub, uc);
    lemma_byte_lex_antisymmetric(ua, uc);
    if byte_lex(na, nb) <= 0 && byte_lex(nb, nc) <= 0 {
        lemma_byte_lex_transitive(na, nb, nc);
    }
    if byte_lex(ua, ub) <= 0 && byte_lex(ub, uc) <= 0 {
        lemma_byte_lex_transitive(ua, ub, uc);
    }
    if byte_lex(na, nb) == 0 && byte_lex(nb, nc) > 0 {
        assert(byte_lex(nc, nb) < 0);
    }
    if byte_lex(na, nb) > 0 && byte_lex(nb, nc) == 0 {
        assert(byte_lex(nb, na) < 0);
    }
}

/// Row `a` at input position `ia` comes before row `b` at position `ib` in a stable sort.
pub open spec fn row_before(a: ProcRow, ia: int, b: ProcRow, ib: int) -> bool {
    row_order(a, b) < 0 || (row_order(a, b) == 0 && ia < ib)
}

/// `out` is `inp` rearranged by the permutation `p` (`out[k] == inp[p[k]]`), ordered by
/// row order with ties kept in input order.
pub open spec fn is_stable_sort_by(out: Seq<ProcRow>, inp: Seq<ProcRow>, p: Seq<int>) -> bool {
    &&& out.len() == inp.len()
    &&& p.len() == inp.len()
    &&& forall|k: int| 0 <= k < p.len() ==> 0 <= #[trigger] p[k] < inp.len()
    &&& p.no_duplicates()
    &&& forall|k: int| 0 <= k < out.len() ==> #[trigger] out[k] == inp[p[k]]
    &&& forall|k: int, l: int|
        0 <= k < l < out.len() ==> row_before(#[trigger] out[k], p[k], #[trigger] out[l], p[l])
}

/// Sort rows by status priority, cpu usage, memory usage, name, user, then pid; rows that
/// compare equal keep their relative order.
pub fn sort_rows(rows: &mut Vec<ProcRow>)
    ensures
        exists|p: Seq<int>| is_stable_sort_by(final(rows)@, old(rows)@, p),
{
    let ghost orig = rows@;
    let mut input: Vec<ProcRow> = Vec::new();
    std::mem::swap(&mut input, rows);
    let mut out: Vec<ProcRow> = Vec::new();
    let ghost mut p: Seq<int> = Seq::empty();
    let n = input.len();
    while input.len() > 0
        invariant
            input@ == orig.take(input@.len() as int),
            input@.len() <= n,
            n == orig.len(),
            out@.len() + input@.len() == n,
            p.len() == out@.len(),
            forall|k: int| 0 <= k < p.len() ==> input@.len() <= #[trigger] p[k] < n,
            p.no_duplicates(),
            forall|k: int| 0 <= k < out@.len() ==> #[trigger] out@[k] == orig[p[k]],
            forall|k: int, l: int|
                0 <= k < l < out@.len() ==> row_before(
                    #[trigger] out@[k],
                    p[k],
                    #[trigger] out@[l],
                    p[l],
                ),
        decreases input@.len(),
    {
        let j = input.len() - 1;
        let x = input.pop().unwrap();
        assert(x == orig[j as int]);
        assert(input@ =~= orig.take(j as int));
        let mut pos: usize = 0;
        while pos < out.len() && row_order_sign(&x, &out[pos]) > 0
            invariant
                pos <= out@.len(),
                forall|k: int| 0 <= k < pos ==> row_order(x, #[trigger] out@[k]) > 0,
            decreases out@.len() - pos,
        {
            pos = pos + 1;
        }
        proof {
            assert forall|k: int| 0 <= k < pos implies row_before(
                #[trigger] out@[k],
                p[k],
                x,
                j as int,
            ) by {
                lemma_row_order_antisymmetric(x, out@[k]);
            }
            if pos < out@.len() {
                assert forall|k: int| pos <= k < out@.len() implies row_before(
                    x,
                    j as int,
                    #[trigger] out@[k],
                    p[k],
                ) by {
                    if k > pos {
                        assert(row_before(out@[pos as int], p[pos as int], out@[k], p[k]));
                        lemma_row_order_transitive(x, out@[pos as int], out@[k]);
                    }
                }
            }
        }
        let ghost old_out = out@;
        let ghost old_p = p;
        out.insert(pos, x);
        proof {
            p = p.insert(pos as int, j as int);
            assert forall|k: int| 0 <= k < out@.len() implies #[trigger] out@[k] == orig[p[k]] by {
                if k < pos {
                    assert(out@[k] == old_out[k]);
                } else if k > pos {
                    assert(out@[k] == old_out[k - 1]);
                }
            }
            assert forall|a: int, b: int| 0 <= a < p.len() && 0 <= b < p.len() && a != b implies p[a]
                != p[b] by {
                if a != pos && b != pos {
                    let a0 = if a < pos { a } else { a - 1 };
                    let b0 = if b < pos { b } else { b - 1 };
                    assert(old_p[a0] != old_p[b0]);
                }
            }
            assert forall|k: int, l: int| 0 <= k < l < out@.len() implies row_before(
                #[trigger] out@[k],
                p[k],
                #[trigger] out@[l],
                p[l],
            ) by {
                let k0 = if k < pos { k } else { k - 1 };
                let l0 = if l < pos { l } else { l - 1 };
                if k != pos && l != pos {
                    assert(row_before(old_out[k0], old_p[k0], old_out[l0], old_p[l0]));
                }
            }
        }
    }
    assert(is_stable_sort_by(out@, orig, p));
    *rows = out;
}

} // verus!

verus! {

/// Longest pattern, in bytes, that regex mode accepts.
pub const MAX_REGEX_PATTERN_LEN: usize = 256;

#[verifier::external_type_specification]
#[verifier::external_body]
pub struct ExRegex(regex::Regex);

/// Whether the regex crate builds a case-insensitive regex from this pattern.
pub uninterp spec fn regex_builds(pattern: Seq<char>) -> bool;

/// The regex crate's explanation of why it rejects this pattern, as `regex::Error` displays it.
pub uninterp spec fn regex_build_error(pattern: Seq<char>) -> Seq<char>;

/// Whether a case-insensitive regex built from `pattern` matches somewhere in `haystack`.
pub uninterp spec fn regex_is_match(pattern: Seq<char>, haystack: Seq<char>) -> bool;

/// Unicode lowercase of a text, as `str::to_lowercase` computes it.
pub uninterp spec fn unicode_lowercase(text: Seq<char>) -> Seq<char>;

/// Builds a case-insensitive regex with `regex::RegexBuilder` (`new`, `case_insensitive(true)`,
/// `build`); a rejection is handed back as the error's displayed text. Claimed: the build
/// succeeds exactly when the pattern is one the crate accepts, a fixed property of the pattern
/// named `regex_builds`, and the error text is a fixed function of the pattern, named
/// `regex_build_error`.
#[verifier::external_body]
fn build_case_insensitive_regex(pattern: &str) -> (r: Result<regex::Regex, String>)
    ensures
        r is Ok <==> regex_builds(pattern@),
        r matches Err(text) ==> text@ == regex_build_error(pattern@),
{
    match regex::RegexBuilder::new(pattern).case_insensitive(true).build() {
        Ok(regex) => Ok(regex),
        Err(err) => Err(err.to_string()),
    }
}

/// A character lowercased in the ASCII range: `A` to `Z` become `a` to `z`, others stay.
pub open spec fn ascii_lower_char(c: char) -> char {
    if 'A' <= c && c <= 'Z' {
        ((c as u32) + 32) as char
    } else {
        c
    }
}

/// A text lowercased in the ASCII range, character by character.
pub open spec fn ascii_lowercase_chars(text: Seq<char>) -> Seq<char> {
    Seq::new(text.len(), |i: int| ascii_lower_char(text[i]))
}

/// Lowercases a text with `str::to_lowercase`; the result is named `unicode_lowercase`.
/// Claimed besides: an ASCII text comes back with `A` to `Z` lowered and all else unchanged,
/// as Unicode's lowercase mapping has it for the ASCII range.
#[verifier::external_body]
pub(crate) fn to_lowercase(text: &str) -> (r: String)
    ensures
        r@ == unicode_lowercase(text@),
        is_ascii_chars(text@) ==> r@ == ascii_lowercase_chars(text@),
{
    text.to_lowercase()
}

/// A case-insensitive regular expression together with the pattern it was built from.
///
/// Only `compile_filter` builds one, from `pattern` with case-insensitive matching on.
#[derive(Debug)]
pub struct CaseInsensitiveRegex {
    pattern: String,
    regex: regex::Regex,
}

impl CaseInsensitiveRegex {
    /// The pattern the regex was built from.
    pub closed spec fn pattern(&self) -> Seq<char> {
        self.pattern@
    }

    /// The pattern the regex was built from.
    pub fn as_str(&self) -> (r: &str)
        ensures
            r@ == self.pattern(),
    {
        self.pattern.as_str()
    }
}

/// Tests a haystack with `regex::Regex::is_match`. Claimed: the answer is a fixed function
/// of the pattern the regex was built from (case-insensitively) and the haystack, named
/// `regex_is_match`.
#[verifier::external_body]
fn regex_find_any(re: &CaseInsensitiveRegex, haystack: &str) -> (r: bool)
    ensures
        r == regex_is_match(re.pattern(), haystack@),
{
    re.regex.is_match(haystack)
}

/// Byte ranges that lie inside `0..len`, each ending at or before the start of the next.
pub open spec fn spans_in_order(spans: Seq<(usize, usize)>, len: int) -> bool {
    &&& forall|i: int| 0 <= i < spans.len() ==> spans[i].0 <= spans[i].1 && spans[i].1 <= len
    &&& forall|i: int, j: int|
        #![trigger spans[i], spans[j]]
        0 <= i < j < spans.len() ==> spans[i].1 <= spans[j].0
}

/// Byte ranges of the successive non-overlapping matches that a case-insensitive regex built
/// from `pattern` finds in `haystack`.
pub uninterp spec fn regex_match_spans(pattern: Seq<char>, haystack: Seq<char>) -> Seq<(usize, usize)>;

/// The matches `regex::Regex::find_iter` yields, as byte ranges. Claimed: the ranges are a
/// fixed function of the pattern the regex was built from and the haystack, named
/// `regex_match_spans`; as `find_iter` documents successive non-overlapping matches in the
/// haystack, each range lies inside the haystack's bytes and each ends before the next begins.
#[verifier::external_body]
pub(crate) fn regex_find_spans(re: &CaseInsensitiveRegex, haystack: &str) -> (r: Vec<(usize, usize)>)
    ensures
        r@ == regex_match_spans(re.pattern(), haystack@),
        spans_in_order(r@, text_bytes(haystack@).len() as int),
{
    re.regex.find_iter(haystack).map(|m| (m.start(), m.end())).collect()
}

/// Compiled filtering mode used during process row matching.
#[derive(Debug)]
pub enum FilterSpec {
    /// Case-insensitive substring filter.
    Substring {
        /// The filter text as typed.
        raw: String,
        /// The filter text lowercased.
        lowered: String,
        /// Whether the filter text is pure ASCII.
        ascii_only: bool,
    },
    /// Case-insensitive compiled regular expression.
    Regex(CaseInsensitiveRegex),
}

/// Why a filter could not be compiled.
#[derive(Clone, Debug, PartialEq, Eq)]
pub enum FilterError {
    /// The regex pattern is longer than `MAX_REGEX_PATTERN_LEN` bytes.
    PatternTooLong,
    /// The regex crate rejected the pattern; its explanation.
    InvalidRegex(String),
}

impl FilterError {
    /// Human-readable description of the error.
    pub fn message(&self) -> (r: String)
        ensures
            *self == FilterError::PatternTooLong ==> r@ == "regex pattern too long (max 256 chars)"@,
            self matches FilterError::InvalidRegex(text) ==> r@ == text@,
    {
        match self {
            FilterError::PatternTooLong => String::from_str("regex pattern too long (max 256 chars)"),
            FilterError::InvalidRegex(text) => text.clone(),
        }
    }
}

/// Byte length of a text's UTF-8 encoding, as `str::len` reports it.
pub open spec fn byte_len(text: Seq<char>) -> usize {
    text_bytes(text).len() as usize
}

/// What `compile_filter` returns: no filter for no text; in regex mode an error for a pattern
/// over the length limit or one the regex crate rejects, else the regex; otherwise a substring
/// filter holding the text, its lowercase form and whether it is ASCII.
pub open spec fn compile_filter_ok(
    filter: Option<String>,
    regex_mode: bool,
    r: Result<Option<FilterSpec>, FilterError>,
) -> bool {
    match filter {
        None => r == Ok::<Option<FilterSpec>, FilterError>(None),
        Some(text) => if regex_mode {
            if byte_len(text@) > MAX_REGEX_PATTERN_LEN {
                r == Err::<Option<FilterSpec>, FilterError>(FilterError::PatternTooLong)
            } else if regex_builds(text@) {
                r matches Ok(Some(FilterSpec::Regex(re))) && re.pattern() == text@
            } else {
                r matches Err(FilterError::InvalidRegex(reason)) && reason@ == regex_build_error(text@)
            }
        } else {
            r matches Ok(Some(FilterSpec::Substring { raw, lowered, ascii_only })) && raw@
                == text@ && lowered@ == unicode_lowercase(text@) && ascii_only == is_ascii_chars(
                text@,
            ) && (ascii_only ==> lowered@ == ascii_lowercase_chars(text@))
        },
    }
}

/// Build a compiled filter from raw filter input.
pub fn compile_filter(filter: Option<String>, regex_mode: bool) -> (r: Result<
    Option<FilterSpec>,
    FilterError,
>)
    ensures
        compile_filter_ok(filter, regex_mode, r),
{
    let filter_text = match filter {
        None => return Ok(None),
        Some(text) => text,
    };
    if regex_mode {
        let text_str = filter_text.as_str();
        let text_len = text_str.len();
        if text_len > MAX_REGEX_PATTERN_LEN {
            return Err(FilterError::PatternTooLong);
        }
        return match build_case_insensitive_regex(filter_text.as_str()) {
            Ok(regex) => {
                let re = CaseInsensitiveRegex { pattern: filter_text, regex };
                assert(re.pattern() == filter_text@);
                Ok(Some(FilterSpec::Regex(re)))
            },
            Err(reason) => Err(FilterError::InvalidRegex(reason)),
        };
    }
    let lowered = to_lowercase(filter_text.as_str());
    let ascii_only = filter_text.is_ascii();
    Ok(Some(FilterSpec::Substring { raw: filter_text, lowered, ascii_only }))
}

/// ASCII lowercase of a byte.
pub open spec fn ascii_lower(b: u8) -> u8 {
    if 65 <= b <= 90 {
        (b + 32) as u8
    } else {
        b
    }
}

/// Two bytes are equal, ignoring ASCII case when `fold` is set.
pub open spec fn bytes_agree(a: u8, b: u8, fold: bool) -> bool {
    if fold {
        ascii_lower(a) == ascii_lower(b)
    } else {
        a == b
    }
}

/// `needle` occurs in `haystack` at byte offset `i`.
pub open spec fn occurs_at(haystack: Seq<u8>, needle: Seq<u8>, i: int, fold: bool) -> bool {
    &&& 0 <= i
    &&& i + needle.len() <= haystack.len()
    &&& forall|k: int| 0 <= k < needle.len() ==> bytes_agree(#[trigger] haystack[i + k], needle[k], fold)
}

/// `needle` occurs somewhere in `haystack`.
pub open spec fn occurs_in(haystack: Seq<u8>, needle: Seq<u8>, fold: bool) -> bool {
    exists|i: int| occurs_at(haystack, needle, i, fold)
}

/// Whether two bytes agree, ignoring ASCII case when `fold` is set.
fn bytes_agree_exec(a: u8, b: u8, fold: bool) -> (r: bool)
    ensures
        r == bytes_agree(a, b, fold),
{
    if fold {
        let la: u8 = if 65 <= a && a <= 90 { a + 32 } else { a };
        let lb: u8 = if 65 <= b && b <= 90 { b + 32 } else { b };
        la == lb
    } else {
        a == b
    }
}

/// Search a byte string for a byte pattern, ignoring ASCII case when `fold` is set.
fn bytes_contain(haystack: &[u8], needle: &[u8], fold: bool) -> (r: bool)
    ensures
        r == occurs_in(haystack@, needle@, fold),
{
    if needle.len() > haystack.len() {
        return false;
    }
    if needle.len() == 0 {
        assert(occurs_at(haystack@, needle@, 0, fold));
        return true;
    }
    let hlen = haystack.len();
    let last = hlen - needle.len();
    let mut i: usize = 0;
    while i <= last
        invariant
            hlen == haystack@.len(),
            last + needle@.len() == haystack@.len(),
            needle@.len() >= 1,
            forall|j: int| 0 <= j < i ==> !occurs_at(haystack@, needle@, j, fold),
        decreases last + 1 - i,
    {
        let mut k: usize = 0;
        let mut agree = true;
        while agree && k < needle.len()
            invariant
                hlen == haystack@.len(),
                i + needle@.len() <= haystack@.len(),
                i <= last,
                last + needle@.len() == haystack@.len(),
                k <= needle@.len(),
                forall|m: int| 0 <= m < k ==> bytes_agree(#[trigger] haystack@[i + m], needle@[m], fold),
                !agree ==> k < needle@.len() && !bytes_agree(haystack@[i + k], needle@[k as int], fold),
            decreases (needle@.len() - k) * 2 + if agree { 1int } else { 0int },
        {
            if bytes_agree_exec(haystack[i + k], needle[k], fold) {
                k = k + 1;
            } else {
                agree = false;
            }
        }
        if k == needle.len() {
            assert(occurs_at(haystack@, needle@, i as int, fold));
            return true;
        }
        assert(!bytes_agree(haystack@[i + k], needle@[k as int], fold));
        assert(!occurs_at(haystack@, needle@, i as int, fold));
        i = i + 1;
    }
    assert forall|j: int| !occurs_at(haystack@, needle@, j, fold) by {
        if j > last && occurs_at(haystack@, needle@, j, fold) {
            assert(false);
        }
    }
    false
}

/// Case-insensitive containment as the substring filter decides it: an empty needle matches;
/// an ASCII needle in an ASCII haystack is compared bytewise ignoring ASCII case; otherwise
/// the lowercased haystack must contain the lowercased needle.
pub open spec fn contains_ignoring_case(
    haystack: Seq<char>,
    needle_raw: Seq<char>,
    needle_lowered: Seq<char>,
    ascii_only: bool,
) -> bool {
    if needle_raw.len() == 0 {
        true
    } else if ascii_only && is_ascii_chars(haystack) {
        occurs_in(text_bytes(haystack), text_bytes(needle_raw), true)
    } else {
        occurs_in(text_bytes(unicode_lowercase(haystack)), text_bytes(needle_lowered), false)
    }
}

/// Check whether `haystack` contains `needle` case-insensitively.
///
/// Uses an ASCII fast path and falls back to Unicode lowercasing when non-ASCII matching is
/// required.
fn contains_case_insensitive(
    haystack: &str,
    needle_raw: &str,
    needle_lowered: &str,
    ascii_only: bool,
) -> (r: bool)
    ensures
        r == contains_ignoring_case(haystack@, needle_raw@, needle_lowered@, ascii_only),
{
    if needle_raw.is_empty() {
        return true;
    }
    if ascii_only && haystack.is_ascii() {
        return bytes_contain(haystack.as_bytes(), needle_raw.as_bytes(), true);
    }
    let lowered = to_lowercase(haystack);
    bytes_contain(lowered.as_str().as_bytes(), needle_lowered.as_bytes(), false)
}

/// The UTF-8 bytes of an ASCII text lowered in the ASCII range are its bytes lowered in the
/// ASCII range, one for one.
proof fn lemma_ascii_lowercase_bytes(text: Seq<char>)
    requires
        is_ascii_chars(text),
    ensures
        is_ascii_chars(ascii_lowercase_chars(text)),
        text_bytes(text).len() == text.len(),
        text_bytes(ascii_lowercase_chars(text)).len() == text.len(),
        forall|j: int|
            0 <= j < text.len() ==> #[trigger] text_bytes(ascii_lowercase_chars(text))[j]
                == ascii_lower(text_bytes(text)[j]),
{
    let lowered = ascii_lowercase_chars(text);
    assert forall|i: int| 0 <= i < lowered.len() implies '\0' <= #[trigger] lowered[i] <= '\u{7f}' by {
        assert(lowered[i] == ascii_lower_char(text[i]));
        assert('\0' <= text[i] <= '\u{7f}');
    }
    is_ascii_chars_encode_utf8(text);
    is_ascii_chars_encode_utf8(lowered);
    assert forall|j: int| 0 <= j < text.len() implies #[trigger] text_bytes(lowered)[j] == ascii_lower(
        text_bytes(text)[j],
    ) by {
        assert(text[j] as u8 == encode_utf8(text)[j]);
        assert(lowered[j] as u8 == encode_utf8(lowered)[j]);
        assert(lowered[j] == ascii_lower_char(text[j]));
        assert('\0' <= text[j] <= '\u{7f}');
    }
}

/// The substring test of a filter compiled from `raw` is "lowercase both texts and search":
/// it holds exactly when the lowercased haystack's bytes contain the lowercased filter text's
/// bytes. Stated over the texts that `to_lowercase` returns for the haystack and for `raw`,
/// with what it states of them.
pub proof fn lemma_substring_test_is_lowercase_search(
    haystack: Seq<char>,
    raw: Seq<char>,
    haystack_lowered: Seq<char>,
    raw_lowered: Seq<char>,
)
    requires
        haystack_lowered == unicode_lowercase(haystack),
        raw_lowered == unicode_lowercase(raw),
        is_ascii_chars(haystack) ==> haystack_lowered == ascii_lowercase_chars(haystack),
        is_ascii_chars(raw) ==> raw_lowered == ascii_lowercase_chars(raw),
    ensures
        contains_ignoring_case(haystack, raw, raw_lowered, is_ascii_chars(raw)) == occurs_in(
            text_bytes(haystack_lowered),
            text_bytes(raw_lowered),
            false,
        ),
{
    let hl = text_bytes(haystack_lowered);
    let rl = text_bytes(raw_lowered);
    if raw.len() == 0 {
        lemma_ascii_lowercase_bytes(raw);
        assert(occurs_at(hl, rl, 0, false));
    } else if is_ascii_chars(raw) && is_ascii_chars(haystack) {
        lemma_ascii_lowercase_bytes(raw);
        lemma_ascii_lowercase_bytes(haystack);
        let h = text_bytes(haystack);
        let r = text_bytes(raw);
        assert forall|i: int| occurs_at(h, r, i, true) == occurs_at(hl, rl, i, false) by {
            if occurs_at(h, r, i, true) {
                assert forall|k: int| 0 <= k < rl.len() implies #[trigger] hl[i + k] == rl[k] by {
                    assert(bytes_agree(h[i + k], r[k], true));
                }
            }
            if occurs_at(hl, rl, i, false) {
                assert forall|k: int| 0 <= k < r.len() implies bytes_agree(#[trigger] h[i + k], r[k], true) by {
                    assert(hl[i + k] == rl[k]);
                }
            }
        }
        if occurs_in(h, r, true) {
            let i = choose|i: int| occurs_at(h, r, i, true);
            assert(occurs_at(hl, rl, i, false));
        }
        if occurs_in(hl, rl, false) {
            let i = choose|i: int| occurs_at(hl, rl, i, false);
            assert(occurs_at(h, r, i, true));
        }
    }
}

/// Whether a row passes a filter: no filter passes every row; a substring filter needs its
/// text in the name or the command line; a regex needs a match in the name or the command.
pub open spec fn row_matches(row: ProcRow, filter: Option<FilterSpec>) -> bool {
    match filter {
        None => true,
        Some(FilterSpec::Substring { raw, lowered, ascii_only }) => contains_ignoring_case(
            row.name@,
            raw@,
            lowered@,
            ascii_only,
        ) || contains_ignoring_case(row.cmd@, raw@, lowered@, ascii_only),
        Some(FilterSpec::Regex(re)) => regex_is_match(re.pattern(), row.name@) || regex_is_match(
            re.pattern(),
            row.cmd@,
        ),
    }
}

/// Return whether a row matches an optional case-insensitive filter.
pub fn matches_filter(row: &ProcRow, filter: Option<&FilterSpec>) -> (r: bool)
    ensures
        r == row_matches(*row, filter_value(filter)),
{
    match filter {
        None => true,
        Some(FilterSpec::Substring { raw, lowered, ascii_only }) => {
            contains_case_insensitive(row.name.as_str(), raw.as_str(), lowered.as_str(), *ascii_only)
                || contains_case_insensitive(row.cmd.as_str(), raw.as_str(), lowered.as_str(), *ascii_only)
        },
        Some(FilterSpec::Regex(re)) => regex_find_any(re, row.name.as_str()) || regex_find_any(
            re,
            row.cmd.as_str(),
        ),
    }
}

} // verus!

verus! {

broadcast use vstd::std_specs::hash::group_hash_axioms;

/// Command-line parts joined with single spaces.
pub open spec fn join_with_spaces(parts: Seq<Seq<char>>) -> Seq<char>
    decreases parts.len(),
{
    if parts.len() == 0 {
        Seq::empty()
    } else if parts.len() == 1 {
        parts[0]
    } else {
        join_with_spaces(parts.drop_last()) + seq![' '] + parts.last()
    }
}

/// Texts of a list of strings.
pub open spec fn texts(parts: Seq<String>) -> Seq<Seq<char>> {
    parts.map_values(|s: String| s@)
}

/// Build command text from command parts, falling back to the executable path.
pub fn build_cmd(cmd_parts: &[String], exe_path: Option<&str>) -> (r: String)
    ensures
        cmd_parts@.len() == 0 ==> r@ == match exe_path {
            Some(path) => path@,
            None => Seq::<char>::empty(),
        },
        cmd_parts@.len() > 0 ==> r@ == join_with_spaces(texts(cmd_parts@)),
{
    if cmd_parts.len() == 0 {
        return match exe_path {
            Some(path) => String::from_str(path),
            None => String::new(),
        };
    }
    let mut out = cmd_parts[0].clone();
    let mut i: usize = 1;
    assert(texts(cmd_parts@).take(1).drop_last() =~= Seq::<Seq<char>>::empty());
    while i < cmd_parts.len()
        invariant
            1 <= i <= cmd_parts@.len(),
            out@ == join_with_spaces(texts(cmd_parts@).take(i as int)),
        decreases cmd_parts@.len() - i,
    {
        out.append(" ");
        out.append(cmd_parts[i].as_str());
        proof {
            reveal_strlit(" ");
            let t = texts(cmd_parts@);
            assert(t.take(i + 1).drop_last() =~= t.take(i as int));
        }
        i = i + 1;
    }
    assert(texts(cmd_parts@).take(i as int) =~= texts(cmd_parts@));
    out
}

/// The parent of `pid` in the pid table, if it is listed and has one.
pub open spec fn parent_in(table: Map<i32, Option<i32>>, pid: i32) -> Option<i32> {
    if table.contains_key(pid) {
        table[pid]
    } else {
        None
    }
}

/// `chain` follows parent links from `ppid` in `table` and stops at the first pid without a
/// listed parent or at the first pid seen before.
pub open spec fn is_ancestor_chain(
    table: Map<i32, Option<i32>>,
    ppid: Option<i32>,
    chain: Seq<i32>,
) -> bool {
    &&& (chain.len() == 0 <==> ppid is None)
    &&& ppid matches Some(p) ==> chain[0] == p
    &&& forall|k: int|
        0 <= k < chain.len() - 1 ==> parent_in(table, #[trigger] chain[k]) == Some(chain[k + 1])
    &&& chain.no_duplicates()
    &&& chain.len() > 0 ==> match parent_in(table, chain.last()) {
        None => true,
        Some(next) => chain.contains(next),
    }
}

/// Follow parent links from `ppid`, stopping at a missing parent or a repeated pid.
pub fn build_ancestor_chain(ppid: Option<i32>, pid_to_ppid_all: &HashMap<i32, Option<i32>>) -> (r:
    Vec<i32>)
    ensures
        is_ancestor_chain(pid_to_ppid_all@, ppid, r@),
{
    let ghost table = pid_to_ppid_all@;
    let mut chain: Vec<i32> = Vec::new();
    let mut seen: HashSet<i32> = HashSet::new();
    let mut current = ppid;
    loop
        invariant
            table == pid_to_ppid_all@,
            table.dom().finite(),
            seen@ == chain@.to_set(),
            chain@.no_duplicates(),
            chain@.len() == 0 ==> current == ppid,
            chain@.len() > 0 ==> ppid == Some(chain@[0]),
            chain@.len() > 0 ==> current == parent_in(table, chain@.last()),
            forall|k: int|
                0 <= k < chain@.len() - 1 ==> parent_in(table, #[trigger] chain@[k]) == Some(
                    chain@[k + 1],
                ),
            forall|k: int| 0 <= k < chain@.len() - 1 ==> table.dom().contains(#[trigger] chain@[k]),
        ensures
            is_ancestor_chain(table, ppid, chain@),
        decreases table.dom().len() + 1 - chain@.len(),
    {
        let pid = match current {
            None => break,
            Some(p) => p,
        };
        if seen.contains(&pid) {
            assert(chain@.to_set().contains(pid));
            break;
        }
        proof {
            let front = chain@;
            if front.len() > 0 {
                assert(table.dom().contains(front.last()));
                let prefix = front;
                assert forall|x: i32| prefix.to_set().contains(x) implies table.dom().contains(x) by {
                    let a = prefix.index_of(x);
                    if a < prefix.len() - 1 {
                        assert(table.dom().contains(prefix[a]));
                    }
                }
                prefix.unique_seq_to_set();
                vstd::set_lib::lemma_len_subset(prefix.to_set(), table.dom());
            }
        }
        let ghost before = chain@;
        chain.push(pid);
        seen.insert(pid);
        proof {
            assert(chain@ == before.push(pid));
            before.lemma_push_to_set_commute(pid);
            assert(chain@.to_set() =~= before.to_set().insert(pid));
            assert(chain@.no_duplicates()) by {
                assert forall|a: int, b: int| 0 <= a < b < chain@.len() implies chain@[a] != chain@[b] by {
                    if b == chain@.len() - 1 {
                        assert(before.to_set().contains(before[a]));
                    }
                }
            }
            assert forall|k: int| 0 <= k < chain@.len() - 1 implies table.dom().contains(
                #[trigger] chain@[k],
            ) by {
                if k == before.len() - 1 {
                    assert(parent_in(table, before.last()) == Some(pid));
                }
            }
        }
        current = match pid_to_ppid_all.get(&pid) {
            Some(parent) => *parent,
            None => None,
        };
    }
    chain
}

/// Whether a process stays in the table: with no user to limit to, every process does; with
/// one, only a process owned by that user's id.
pub fn owned_by(process_uid: Option<u32>, current_uid: Option<u32>) -> (r: bool)
    ensures
        r == match current_uid {
            None => true,
            Some(uid) => process_uid == Some(uid),
        },
{
    match current_uid {
        None => true,
        Some(uid) => match process_uid {
            Some(owner) => owner == uid,
            None => false,
        },
    }
}

/// The filter a borrowed optional filter refers to.
pub open spec fn filter_value(filter: Option<&FilterSpec>) -> Option<FilterSpec> {
    match filter {
        Some(f) => Some(*f),
        None => None,
    }
}

/// Rows that pass `filter`, in their given order.
pub open spec fn matching_rows(rows: Seq<ProcRow>, filter: Option<FilterSpec>) -> Seq<ProcRow> {
    rows.filter(|row: ProcRow| row_matches(row, filter))
}

/// Keep the rows that pass the filter and sort them into table order.
pub fn select_rows(rows: Vec<ProcRow>, filter: Option<&FilterSpec>) -> (r: Vec<ProcRow>)
    ensures
        exists|p: Seq<int>|
            #[trigger] is_stable_sort_by(r@, matching_rows(rows@, filter_value(filter)), p),
{
    let ghost f = filter_value(filter);
    let ghost pred = |row: ProcRow| row_matches(row, f);
    let mut kept: Vec<ProcRow> = Vec::new();
    let mut rest = rows;
    let ghost all = rest@;
    let ghost mut i: int = 0;
    assert(all.take(0).filter(pred) =~= Seq::<ProcRow>::empty());
    while rest.len() > 0
        invariant
            0 <= i <= all.len(),
            rest@ == all.skip(i),
            kept@ == all.take(i).filter(pred),
            pred == (|row: ProcRow| row_matches(row, f)),
            f == filter_value(filter),
        decreases rest@.len(),
    {
        let row = rest.remove(0);
        let keep = matches_filter(&row, filter);
        let ghost prev = i;
        proof {
            assert(all.take(i + 1).drop_last() =~= all.take(i));
            assert(all[i] == row);
            assert(all.take(i + 1).last() == row);
            assert(row_matches(row, f) == keep);
            assert(pred(row) == keep);
            reveal_with_fuel(Seq::filter, 1);
            assert(rest@ =~= all.skip(i + 1));
            i = i + 1;
        }
        if keep {
            kept.push(row);
        }
        proof {
            reveal_with_fuel(Seq::filter, 1);
            assert(kept@ =~= all.take(i).filter(pred));
        }
    }
    assert(all.take(i) =~= all);
    assert(kept@ == matching_rows(all, f));
    sort_rows(&mut kept);
    kept
}

} // verus!

verus! {

/// Account name of a uid in the system's user database (`users::get_user_by_uid`, the name
/// taken lossily as text). The answer depends on the user database of the machine, so
/// nothing is claimed of it.
#[verifier::external_body]
fn lookup_user_name(uid: u32) -> Option<String> {
    users::get_user_by_uid(uid).map(|user| user.name().to_string_lossy().to_string())
}

/// `name` is an answer the user database can give for `uid`, as `lookup_user_name` asks it.
pub closed spec fn user_db_answer(uid: u32, name: Option<String>) -> bool {
    call_ensures(lookup_user_name, (uid,), name)
}

/// Ask the user database about `uid` through `lookup`.
fn ask_user_db<F: Fn(u32) -> Option<String>>(lookup: F, uid: u32) -> (r: Option<String>)
    requires
        call_requires(lookup, (uid,)),
    ensures
        call_ensures(lookup, (uid,), r),
{
    lookup(uid)
}

/// Display text of a process owner, given what the user database answered for its uid: the
/// account name, else the uid in decimal; `?` when the process has no uid.
pub open spec fn user_text(uid: Option<u32>, name: Option<String>) -> Seq<char> {
    match uid {
        None => "?"@,
        Some(u) => match name {
            Some(n) => n@,
            None => decimal(u as nat),
        },
    }
}

/// The owner text of a uid is the account name whenever the user database resolves one, and
/// the uid in decimal only when it resolves none.
pub proof fn lemma_owner_text_prefers_account_name(uid: u32, name: Option<String>)
    ensures
        name matches Some(n) ==> user_text(Some(uid), name) == n@,
        name is None ==> user_text(Some(uid), name) == decimal(uid as nat),
{
}

/// Display text of a process owner from its uid and the user database's answer.
pub fn user_label(uid: Option<u32>, name: Option<String>) -> (r: String)
    ensures
        r@ == user_text(uid, name),
{
    match uid {
        None => String::from_str("?"),
        Some(u) => match name {
            Some(n) => n,
            None => {
                let mut text = String::new();
                push_decimal(&mut text, u as u64);
                text
            },
        },
    }
}

/// Resolve a uid to a displayable user string by asking the user database: `?` for no uid;
/// for a uid, the text is `user_label` of that uid and an answer the database gives for it
/// (the account name when it resolves one, else the uid in decimal). Which answer that is
/// depends on the machine.
pub fn to_user(uid: Option<u32>) -> (r: String)
    ensures
        uid is None ==> r@ == "?"@,
        uid matches Some(u) ==> exists|name: Option<String>|
            #[trigger] user_db_answer(u, name) && r@ == user_text(Some(u), name),
{
    match uid {
        None => user_label(None, None),
        Some(u) => {
            let name = ask_user_db(lookup_user_name, u);
            assert(user_db_answer(u, name));
            user_label(Some(u), name)
        },
    }
}

/// Resolve user display text, asking the user database once per uid: a uid already in
/// `cache` gets the cached text, a new one is resolved with `to_user` and remembered.
pub fn resolve_user_cached(uid: Option<u32>, cache: &mut HashMap<u32, String>) -> (r: String)
    ensures
        uid is None ==> r@ == "?"@ && final(cache)@ == old(cache)@,
        uid matches Some(u) ==> if old(cache)@.contains_key(u) {
            r == old(cache)@[u] && final(cache)@ == old(cache)@
        } else {
            final(cache)@ == old(cache)@.insert(u, r) && exists|name: Option<String>|
                #[trigger] user_db_answer(u, name) && r@ == user_text(Some(u), name)
        },
{
    let uid_key = match uid {
        None => return String::from_str("?"),
        Some(u) => u,
    };
    match cache.get(&uid_key) {
        Some(cached) => return cached.clone(),
        None => {},
    }
    let resolved = to_user(Some(uid_key));
    cache.insert(uid_key, resolved.clone());
    resolved
}

} // verus!
