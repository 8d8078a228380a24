//! Text shown around the process table: title, help, footer, status labels and the parts of
//! a cell that the active filter highlights.

use vstd::prelude::*;

use crate::model::ProcStatus;
use crate::process::{
    ascii_lower, filter_value, occurs_at, regex_find_spans, regex_match_spans, spans_in_order,
    text_bytes, to_lowercase, unicode_lowercase, FilterSpec,
};
use crate::text::{decimal, push_decimal};

verus! {

/// Table title: the filter text in quotes when there is one.
pub open spec fn title_message(filter: Option<Seq<char>>) -> Seq<char> {
    match filter {
        Some(f) => "process status - filter: \""@ + f + "\""@,
        None => "process status"@,
    }
}

/// Build the table title based on the filter; the count is not shown.
pub fn build_title(filter: Option<&str>, _count: usize) -> (r: String)
    ensures
        r@ == title_message(
            match filter {
                Some(f) => Some(f@),
                None => None,
            },
        ),
{
    match filter {
        Some(filter_value) => {
            let mut text = String::from_str("process status - filter: \"");
            text.append(filter_value);
            text.append("\"");
            text
        },
        None => String::from_str("process status"),
    }
}

/// The key help line, with the number of processes.
pub open spec fn help_message(count: nat) -> Seq<char> {
    "processes: "@ + decimal(count)
        + " | ↑/↓: select | ←/→: collapse/expand | 1-9: send signal | /: filter | r: refresh | q: quit"@
}

/// Build the key help line.
pub fn build_help(count: usize) -> (r: String)
    ensures
        r@ == help_message(count as nat),
{
    let mut text = String::from_str("processes: ");
    push_decimal(&mut text, count as u64);
    text.append(
        " | ↑/↓: select | ←/→: collapse/expand | 1-9: send signal | /: filter | r: refresh | q: quit",
    );
    text
}

/// Footer text: the help line, then the status after a dash when there is one.
pub open spec fn footer_message(help: Seq<char>, status: Seq<char>) -> Seq<char> {
    if status.len() == 0 {
        help
    } else {
        help + "  —  "@ + status
    }
}

/// Build the footer text with optional status suffix.
pub fn build_footer(help: &str, status: &str) -> (r: String)
    ensures
        r@ == footer_message(help@, status@),
{
    if status.is_empty() {
        String::from_str(help)
    } else {
        let mut text = String::from_str(help);
        text.append("  —  ");
        text.append(status);
        text
    }
}

/// Build the footer shown while the filter prompt is open: the typed text after `/` and a
/// block cursor.
pub fn prompt_footer(text: &str) -> (r: String)
    ensures
        r@ == "/ "@ + text@ + "█"@,
{
    let mut out = String::from_str("/ ");
    out.append(text);
    out.append("█");
    out
}

/// Name cell text: the name, marked when the row's descendants are hidden.
pub fn display_name(name: &str, is_collapsed: bool) -> (r: String)
    ensures
        r@ == if is_collapsed {
            name@ + " [...]"@
        } else {
            name@
        },
{
    let mut out = String::from_str(name);
    if is_collapsed {
        out.append(" [...]");
    }
    out
}

/// Name of a status as the status column shows it.
pub open spec fn status_message(status: ProcStatus) -> Seq<char> {
    match status {
        ProcStatus::Run => "Run"@,
        ProcStatus::Sleep => "Sleep"@,
        ProcStatus::Idle => "Idle"@,
        ProcStatus::Waking => "Waking"@,
        ProcStatus::Parked => "Parked"@,
        ProcStatus::Suspended => "Suspended"@,
        ProcStatus::Stop => "Stop"@,
        ProcStatus::Tracing => "Tracing"@,
        ProcStatus::UninterruptibleDiskSleep => "UninterruptibleDiskSleep"@,
        ProcStatus::LockBlocked => "LockBlocked"@,
        ProcStatus::Wakekill => "Wakekill"@,
        ProcStatus::Zombie => "Zombie"@,
        ProcStatus::Dead => "Dead"@,
        ProcStatus::Unknown(code) => "Unknown("@ + decimal(code as nat) + ")"@,
    }
}

/// Status column text.
pub fn status_text(status: ProcStatus) -> (r: String)
    ensures
        r@ == status_message(status),
{
    match status {
        ProcStatus::Run => String::from_str("Run"),
        ProcStatus::Sleep => String::from_str("Sleep"),
        ProcStatus::Idle => String::from_str("Idle"),
        ProcStatus::Waking => String::from_str("Waking"),
        ProcStatus::Parked => String::from_str("Parked"),
        ProcStatus::Suspended => String::from_str("Suspended"),
        ProcStatus::Stop => String::from_str("Stop"),
        ProcStatus::Tracing => String::from_str("Tracing"),
        ProcStatus::UninterruptibleDiskSleep => String::from_str("UninterruptibleDiskSleep"),
        ProcStatus::LockBlocked => String::from_str("LockBlocked"),
        ProcStatus::Wakekill => String::from_str("Wakekill"),
        ProcStatus::Zombie => String::from_str("Zombie"),
        ProcStatus::Dead => String::from_str("Dead"),
        ProcStatus::Unknown(code) => {
            let mut text = String::from_str("Unknown(");
            push_decimal(&mut text, code as u64);
            text.append(")");
            text
        },
    }
}

/// A byte range of a cell's text, drawn highlighted or plain.
#[derive(Clone, Copy, Debug, PartialEq, Eq, Structural)]
pub struct Segment {
    /// First byte of the range.
    pub start: usize,
    /// Byte just past the range.
    pub end: usize,
    /// Whether the range is a filter match.
    pub highlighted: bool,
}

impl View for Segment {
    type V = (usize, usize, bool);

    open spec fn view(&self) -> (usize, usize, bool) {
        (self.start, self.end, self.highlighted)
    }
}

/// The views of a list of segments.
pub open spec fn segments_view(segments: Seq<Segment>) -> Seq<(usize, usize, bool)> {
    segments.map_values(|s: Segment| s@)
}

/// Bytes lowercased in the ASCII range.
pub open spec fn ascii_lowercase_bytes(bytes: Seq<u8>) -> Seq<u8> {
    bytes.map_values(|b: u8| ascii_lower(b))
}

/// First offset at or after `from` where `needle` occurs in `hay`.
pub open spec fn first_occurrence(hay: Seq<u8>, needle: Seq<u8>, from: int) -> Option<int> {
    if exists|i: int| from <= i && occurs_at(hay, needle, i, false) {
        Some(
            choose|i: int|
                from <= i && occurs_at(hay, needle, i, false) && forall|j: int|
                    from <= j < i ==> !occurs_at(hay, needle, j, false),
        )
    } else {
        None
    }
}

/// End of a match of `width` bytes at `start`, held at the largest offset.
pub open spec fn span_end(start: int, width: int) -> int {
    if start + width <= usize::MAX {
        start + width
    } else {
        usize::MAX as int
    }
}

#[verifier::opaque]
/// Matches of `needle` in `hay` from `pos` on, as the search finds them: the first occurrence,
/// marked `width` bytes wide, then the search goes on from its end (at least one byte further).
pub open spec fn match_spans(hay: Seq<u8>, needle: Seq<u8>, width: int, pos: int) -> Seq<(usize, usize)>
    decreases if pos < hay.len() {
        hay.len() - pos
    } else {
        0
    },
{
    if pos < hay.len() {
        match first_occurrence(hay, needle, pos) {
            Some(s) => {
                let e = span_end(s, width);
                seq![(s as usize, e as usize)] + match_spans(
                    hay,
                    needle,
                    width,
                    if e > pos + 1 {
                        e
                    } else {
                        pos + 1
                    },
                )
            },
            None => Seq::empty(),
        }
    } else {
        Seq::empty()
    }
}

#[verifier::opaque]
/// Segments for matches `spans` of a text of `len` bytes, starting after byte `last`: the
/// plain text before each match, the match, and the plain rest.
pub open spec fn segments_from(spans: Seq<(usize, usize)>, last: int, len: int) -> Seq<(usize, usize, bool)>
    decreases spans.len(),
{
    if spans.len() == 0 {
        if last < len {
            seq![(last as usize, len as usize, false)]
        } else {
            Seq::empty()
        }
    } else {
        let (s, e) = spans[0];
        (if s > last {
            seq![(last as usize, s, false)]
        } else {
            Seq::empty()
        }) + seq![(s, e, true)] + segments_from(spans.drop_first(), e as int, len)
    }
}

/// Segments that run from byte `from` to byte `to` without gap or overlap: none when the two
/// meet; otherwise the first starts at `from`, each ends where the next starts, none runs
/// backwards, and the last ends at `to`.
pub open spec fn covers(segments: Seq<(usize, usize, bool)>, from: int, to: int) -> bool {
    if segments.len() == 0 {
        from == to
    } else {
        &&& segments[0].0 == from
        &&& segments.last().1 == to
        &&& forall|i: int| 0 <= i < segments.len() ==> #[trigger] segments[i].0 <= segments[i].1
        &&& forall|i: int, j: int|
            #![trigger segments[i], segments[j]]
            0 <= i && j == i + 1 && j < segments.len() ==> segments[i].1 == segments[j].0
    }
}

/// Joining segments from `a` to `b` with segments from `b` to `c` covers `a` to `c`.
proof fn lemma_covers_join(x: Seq<(usize, usize, bool)>, y: Seq<(usize, usize, bool)>, a: int, b: int, c: int)
    requires
        covers(x, a, b),
        covers(y, b, c),
    ensures
        covers(x + y, a, c),
{
    let z = x + y;
    if x.len() > 0 && y.len() > 0 {
        assert forall|i: int| 0 <= i < z.len() implies #[trigger] z[i].0 <= z[i].1 by {
            if i < x.len() {
                assert(z[i] == x[i]);
            } else {
                assert(z[i] == y[i - x.len()]);
            }
        }
        assert forall|i: int, j: int| 0 <= i && j == i + 1 && j < z.len() implies #[trigger] z[i].1
            == #[trigger] z[j].0 by {
            if j < x.len() {
                assert(z[i] == x[i] && z[j] == x[j]);
            } else if i == x.len() - 1 {
                assert(z[i] == x.last() && z[j] == y[0]);
            } else {
                assert(z[i] == y[i - x.len()] && z[j] == y[j - x.len()]);
            }
        }
        assert(z.last() == y.last());
    } else if x.len() == 0 {
        assert(z =~= y);
    } else {
        assert(z =~= x);
    }
}

/// The segments built for matches that are in order and inside the text cover the text from
/// `last` to its end.
proof fn lemma_segments_cover(spans: Seq<(usize, usize)>, last: int, len: int)
    requires
        spans_in_order(spans, len),
        0 <= last <= len <= usize::MAX,
        forall|i: int| 0 <= i < spans.len() ==> last <= #[trigger] spans[i].0,
    ensures
        covers(segments_from(spans, last, len), last, len),
    decreases spans.len(),
{
    reveal(segments_from);
    if spans.len() == 0 {
        if last < len {
            assert(covers(seq![(last as usize, len as usize, false)], last, len));
        }
    } else {
        let (s, e) = spans[0];
        let rest = spans.drop_first();
        assert forall|i: int| 0 <= i < rest.len() implies e <= #[trigger] rest[i].0 by {
            assert(rest[i] == spans[i + 1]);
            assert(spans[0].1 <= spans[i + 1].0);
        }
        assert(spans_in_order(rest, len)) by {
            assert forall|i: int, j: int| 0 <= i < j < rest.len() implies rest[i].1 <= rest[j].0 by {
                assert(rest[i] == spans[i + 1] && rest[j] == spans[j + 1]);
            }
        }
        lemma_segments_cover(rest, e as int, len);
        let before: Seq<(usize, usize, bool)> = if s > last {
            seq![(last as usize, s, false)]
        } else {
            Seq::empty()
        };
        let head = seq![(s, e, true)];
        assert(covers(before, last, s as int));
        assert(covers(head, s as int, e as int));
        lemma_covers_join(before, head, last, s as int, e as int);
        lemma_covers_join(before + head, segments_from(rest, e as int, len), last, e as int, len);
    }
}

/// A cover of the whole text stays one when the empty cover is replaced by the whole text.
proof fn lemma_or_whole_covers(segments: Seq<(usize, usize, bool)>, len: int)
    requires
        covers(segments, 0, len),
        0 <= len <= usize::MAX,
    ensures
        covers(or_whole(segments, len), 0, len),
        or_whole(segments, len).len() > 0,
{
    if segments.len() == 0 {
        assert(covers(seq![(0usize, len as usize, false)], 0, len));
    }
}

/// The segments, or the whole text as one plain segment when there are none.
pub open spec fn or_whole(segments: Seq<(usize, usize, bool)>, len: int) -> Seq<(usize, usize, bool)> {
    if segments.len() == 0 {
        seq![(0usize, len as usize, false)]
    } else {
        segments
    }
}

/// How a cell's text is split for highlighting: no filter highlights nothing; a substring
/// filter highlights the successive matches of its lowercase text in the lowercased cell
/// (lowercased in the ASCII range when the filter is ASCII), each as wide as the filter
/// text; a regex highlights its matches.
pub open spec fn highlight_segments(text: Seq<char>, filter: Option<FilterSpec>) -> Seq<
    (usize, usize, bool),
> {
    let len = text_bytes(text).len() as int;
    match filter {
        None => seq![(0usize, len as usize, false)],
        Some(FilterSpec::Substring { raw, lowered, ascii_only }) => {
            let hay = if ascii_only {
                ascii_lowercase_bytes(text_bytes(text))
            } else {
                text_bytes(unicode_lowercase(text))
            };
            or_whole(
                segments_from(
                    match_spans(hay, text_bytes(lowered@), text_bytes(raw@).len() as int, 0),
                    0,
                    len,
                ),
                len,
            )
        },
        Some(FilterSpec::Regex(re)) => or_whole(
            segments_from(regex_match_spans(re.pattern(), text), 0, len),
            len,
        ),
    }
}

/// When `needle` occurs somewhere from `from` on, it has a first occurrence there.
proof fn lemma_least_occurrence(hay: Seq<u8>, needle: Seq<u8>, from: int, w: int)
    requires
        from <= w,
        occurs_at(hay, needle, w, false),
    ensures
        exists|c: int|
            from <= c && occurs_at(hay, needle, c, false) && forall|j: int|
                from <= j < c ==> !occurs_at(hay, needle, j, false),
    decreases w - from,
{
    if exists|j: int| from <= j < w && occurs_at(hay, needle, j, false) {
        let j = choose|j: int| from <= j < w && occurs_at(hay, needle, j, false);
        lemma_least_occurrence(hay, needle, from, j);
    } else {
        assert(from <= w && occurs_at(hay, needle, w, false) && forall|j: int|
            from <= j < w ==> !occurs_at(hay, needle, j, false));
    }
}

/// Matches marked as wide as the needle are in order, inside the text, and start no earlier
/// than where the search began.
#[verifier::rlimit(40)]
proof fn lemma_match_spans_in_order(hay: Seq<u8>, needle: Seq<u8>, pos: int)
    requires
        0 <= pos,
        hay.len() <= usize::MAX,
    ensures
        spans_in_order(match_spans(hay, needle, needle.len() as int, pos), hay.len() as int),
        forall|i: int|
            0 <= i < match_spans(hay, needle, needle.len() as int, pos).len() ==> pos
                <= #[trigger] match_spans(hay, needle, needle.len() as int, pos)[i].0,
    decreases
            if pos < hay.len() {
                hay.len() - pos
            } else {
                0
            },
{
    reveal(match_spans);
    let w = needle.len() as int;
    if pos < hay.len() {
        if let Some(s) = first_occurrence(hay, needle, pos) {
            let wit = choose|i: int| pos <= i && occurs_at(hay, needle, i, false);
            lemma_least_occurrence(hay, needle, pos, wit);
            assert(pos <= s && occurs_at(hay, needle, s, false));
            let e = span_end(s, w);
            assert(e == s + w);
            let next = if e > pos + 1 {
                e
            } else {
                pos + 1
            };
            lemma_match_spans_in_order(hay, needle, next);
            let rest = match_spans(hay, needle, w, next);
            let all = seq![(s as usize, e as usize)] + rest;
            assert(match_spans(hay, needle, w, pos) == all);
            assert forall|i: int| 0 <= i < all.len() implies all[i].0 <= all[i].1 && all[i].1
                <= hay.len() && pos <= #[trigger] all[i].0 by {
                if i > 0 {
                    assert(all[i] == rest[i - 1]);
                }
            }
            assert forall|i: int, j: int| 0 <= i < j < all.len() implies all[i].1 <= all[j].0 by {
                assert(all[j] == rest[j - 1]);
                assert(next <= rest[j - 1].0);
                if i > 0 {
                    assert(all[i] == rest[i - 1]);
                }
            }
        }
    }
}

/// Bytes lowercased in the ASCII range.
fn ascii_lowercase(bytes: &[u8]) -> (r: Vec<u8>)
    ensures
        r@ == ascii_lowercase_bytes(bytes@),
{
    let mut out: Vec<u8> = Vec::new();
    let mut i: usize = 0;
    while i < bytes.len()
        invariant
            i <= bytes@.len(),
            out@ == ascii_lowercase_bytes(bytes@.take(i as int)),
        decreases bytes@.len() - i,
    {
        let b = bytes[i];
        out.push(if 65 <= b && b <= 90 { b + 32 } else { b });
        assert(bytes@.take(i + 1) =~= bytes@.take(i as int).push(b));
        assert(out@ =~= ascii_lowercase_bytes(bytes@.take(i + 1)));
        i = i + 1;
    }
    assert(bytes@.take(i as int) =~= bytes@);
    out
}

/// Whether `needle` occurs in `hay` at offset `i`.
fn occurs_here(hay: &[u8], needle: &[u8], i: usize) -> (r: bool)
    requires
        i <= hay@.len(),
    ensures
        r == occurs_at(hay@, needle@, i as int, false),
{
    let hl = hay.len();
    if needle.len() > hl - i {
        return false;
    }
    let mut k: usize = 0;
    while k < needle.len()
        invariant
            hl == hay@.len(),
            i + needle@.len() <= hl,
            k <= needle@.len(),
            forall|m: int| 0 <= m < k ==> hay@[i + m] == needle@[m],
        decreases needle@.len() - k,
    {
        if hay[i + k] != needle[k] {
            return false;
        }
        k = k + 1;
    }
    true
}

/// First offset at or after `from` where `needle` occurs in `hay`.
fn find_from(hay: &[u8], needle: &[u8], from: usize) -> (r: Option<usize>)
    requires
        from <= hay@.len(),
    ensures
        match r {
            Some(i) => first_occurrence(hay@, needle@, from as int) == Some(i as int),
            None => first_occurrence(hay@, needle@, from as int) is None,
        },
{
    let mut i: usize = from;
    while i < hay.len()
        invariant
            from <= i,
            i <= hay@.len(),
            forall|j: int| from <= j < i ==> !occurs_at(hay@, needle@, j, false),
        decreases hay@.len() - i,
    {
        if occurs_here(hay, needle, i) {
            proof {
                lemma_first_occurrence_is(hay@, needle@, from as int, i as int);
            }
            return Some(i);
        }
        i = i + 1;
    }
    if occurs_here(hay, needle, i) {
        proof {
            lemma_first_occurrence_is(hay@, needle@, from as int, i as int);
        }
        return Some(i);
    }
    proof {
        assert forall|j: int| from <= j implies !occurs_at(hay@, needle@, j, false) by {
            if j > hay@.len() {
                assert(j + needle@.len() > hay@.len());
            }
        }
    }
    None
}

/// The first occurrence from `from` is `i` when `needle` occurs at `i` and nowhere between.
proof fn lemma_first_occurrence_is(hay: Seq<u8>, needle: Seq<u8>, from: int, i: int)
    requires
        from <= i,
        occurs_at(hay, needle, i, false),
        forall|j: int| from <= j < i ==> !occurs_at(hay, needle, j, false),
    ensures
        first_occurrence(hay, needle, from) == Some(i),
{
    let c = choose|c: int|
        from <= c && occurs_at(hay, needle, c, false) && forall|j: int|
            from <= j < c ==> !occurs_at(hay, needle, j, false);
    assert(from <= i && occurs_at(hay, needle, i, false) && forall|j: int|
        from <= j < i ==> !occurs_at(hay, needle, j, false));
    if c < i {
        assert(!occurs_at(hay, needle, c, false));
    }
    if c > i {
        assert(!occurs_at(hay, needle, i, false));
    }
}

/// One step of the match search: a first occurrence at `s` gives the span `(s, end)` and the
/// search goes on from the end, at least one byte further.
proof fn lemma_match_spans_step(hay: Seq<u8>, needle: Seq<u8>, width: int, pos: int, s: int)
    requires
        pos < hay.len(),
        first_occurrence(hay, needle, pos) == Some(s),
    ensures
        match_spans(hay, needle, width, pos) == seq![(s as usize, span_end(s, width) as usize)]
            + match_spans(
            hay,
            needle,
            width,
            if span_end(s, width) > pos + 1 {
                span_end(s, width)
            } else {
                pos + 1
            },
        ),
{
    reveal(match_spans);
}

/// The match search ends when no occurrence is left or the text is used up.
proof fn lemma_match_spans_end(hay: Seq<u8>, needle: Seq<u8>, width: int, pos: int)
    requires
        pos >= hay.len() || first_occurrence(hay, needle, pos) is None,
    ensures
        match_spans(hay, needle, width, pos) == Seq::<(usize, usize)>::empty(),
{
    reveal(match_spans);
}

/// Segments for no more matches: the plain rest, if any.
proof fn lemma_segments_end(spans: Seq<(usize, usize)>, last: int, len: int)
    requires
        spans.len() == 0,
    ensures
        segments_from(spans, last, len) == if last < len {
            seq![(last as usize, len as usize, false)]
        } else {
            Seq::empty()
        },
{
    reveal(segments_from);
}

/// Segments for the next match: the plain text before it, the match, then the rest.
proof fn lemma_segments_step(spans: Seq<(usize, usize)>, last: int, len: int)
    requires
        spans.len() > 0,
    ensures
        segments_from(spans, last, len) == (if spans[0].0 > last {
            seq![(last as usize, spans[0].0, false)]
        } else {
            Seq::empty()
        }) + seq![(spans[0].0, spans[0].1, true)] + segments_from(
            spans.drop_first(),
            spans[0].1 as int,
            len,
        ),
{
    reveal(segments_from);
}

/// Matches of `needle` in `hay`, each marked `width` bytes wide.
#[verifier::rlimit(40)]
fn substring_spans(hay: &[u8], needle: &[u8], width: usize) -> (r: Vec<(usize, usize)>)
    ensures
        r@ == match_spans(hay@, needle@, width as int, 0),
{
    let mut spans: Vec<(usize, usize)> = Vec::new();
    let mut pos: usize = 0;
    while pos < hay.len()
        invariant
            spans@ + match_spans(hay@, needle@, width as int, pos as int) == match_spans(
                hay@,
                needle@,
                width as int,
                0,
            ),
        decreases hay@.len() - pos,
    {
        match find_from(hay, needle, pos) {
            None => {
                proof {
                    lemma_match_spans_end(hay@, needle@, width as int, pos as int);
                    lemma_match_spans_end(hay@, needle@, width as int, hay@.len() as int);
                }
                pos = hay.len();
            },
            Some(start) => {
                let end = start.saturating_add(width);
                let ghost before = spans@;
                let ghost old_pos = pos as int;
                spans.push((start, end));
                let next = if end > pos + 1 { end } else { pos + 1 };
                let clamped = if next < hay.len() { next } else { hay.len() };
                proof {
                    if next >= hay@.len() {
                        lemma_match_spans_end(hay@, needle@, width as int, next as int);
                        lemma_match_spans_end(hay@, needle@, width as int, clamped as int);
                    }
                    assert(end as int == span_end(start as int, width as int));
                    lemma_match_spans_step(hay@, needle@, width as int, old_pos, start as int);
                    assert(spans@ + match_spans(hay@, needle@, width as int, next as int) =~= before
                        + match_spans(hay@, needle@, width as int, old_pos));
                }
                pos = clamped;
            },
        }
    }
    proof {
        lemma_match_spans_end(hay@, needle@, width as int, pos as int);
    }
    assert(spans@ + match_spans(hay@, needle@, width as int, pos as int) =~= spans@);
    spans
}

/// Segments for matches `spans` of a text of `len` bytes.
fn segments_for(spans: &Vec<(usize, usize)>, len: usize) -> (r: Vec<Segment>)
    ensures
        segments_view(r@) == or_whole(segments_from(spans@, 0, len as int), len as int),
        spans_in_order(spans@, len as int) ==> covers(segments_view(r@), 0, len as int),
{
    let mut out: Vec<Segment> = Vec::new();
    let mut last: usize = 0;
    let mut i: usize = 0;
    assert(spans@.skip(0) =~= spans@);
    assert(segments_view(out@) =~= Seq::empty());
    while i < spans.len()
        invariant
            i <= spans@.len(),
            segments_view(out@) + segments_from(spans@.skip(i as int), last as int, len as int)
                == segments_from(spans@, 0, len as int),
        decreases spans@.len() - i,
    {
        let (start, end) = spans[i];
        let ghost before = segments_view(out@);
        let ghost rest = spans@.skip(i as int);
        assert(rest[0] == (start, end));
        assert(rest.drop_first() =~= spans@.skip(i + 1));
        if start > last {
            out.push(Segment { start: last, end: start, highlighted: false });
        }
        out.push(Segment { start, end, highlighted: true });
        proof {
            let tail = segments_from(spans@.skip(i + 1), end as int, len as int);
            let step = (if start > last {
                seq![(last, start, false)]
            } else {
                Seq::empty()
            }) + seq![(start, end, true)];
            lemma_segments_step(rest, last as int, len as int);
            assert(segments_from(rest, last as int, len as int) == step + tail);
            assert(segments_view(out@) =~= before + step);
            assert(segments_view(out@) + tail =~= before + (step + tail));
        }
        last = end;
        i = i + 1;
    }
    let ghost before = segments_view(out@);
    assert(spans@.skip(i as int).len() == 0);
    proof {
        lemma_segments_end(spans@.skip(i as int), last as int, len as int);
    }
    if last < len {
        out.push(Segment { start: last, end: len, highlighted: false });
    }
    assert(segments_view(out@) =~= segments_from(spans@, 0, len as int));
    proof {
        if spans_in_order(spans@, len as int) {
            lemma_segments_cover(spans@, 0, len as int);
            lemma_or_whole_covers(segments_from(spans@, 0, len as int), len as int);
        }
    }
    if out.len() == 0 {
        let whole = vec![Segment { start: 0, end: len, highlighted: false }];
        assert(segments_view(whole@) =~= seq![(0usize, len, false)]);
        whole
    } else {
        out
    }
}

/// Split a cell's text into plain and highlighted byte ranges for the active filter.
pub fn highlight_matches(text: &str, filter: Option<&FilterSpec>) -> (r: Vec<Segment>)
    ensures
        segments_view(r@) == highlight_segments(text@, filter_value(filter)),
        !(filter_value(filter) matches Some(FilterSpec::Substring { .. })) ==> covers(
            segments_view(r@),
            0,
            text_bytes(text@).len() as int,
        ),
        (filter_value(filter) matches Some(FilterSpec::Substring { raw, lowered, ascii_only })
            && ascii_only && text_bytes(lowered@).len() == text_bytes(raw@).len()) ==> covers(
            segments_view(r@),
            0,
            text_bytes(text@).len() as int,
        ),
{
    let len = text.as_bytes().len();
    match filter {
        None => {
            let whole = vec![Segment { start: 0, end: len, highlighted: false }];
            assert(segments_view(whole@) =~= seq![(0usize, len, false)]);
            assert(covers(segments_view(whole@), 0, len as int));
            whole
        },
        Some(FilterSpec::Substring { raw, lowered, ascii_only }) => {
            let width = raw.as_str().as_bytes().len();
            let spans = if *ascii_only {
                let hay = ascii_lowercase(text.as_bytes());
                let found = substring_spans(hay.as_slice(), lowered.as_str().as_bytes(), width);
                proof {
                    if text_bytes(lowered@).len() == text_bytes(raw@).len() {
                        lemma_match_spans_in_order(hay@, text_bytes(lowered@), 0);
                    }
                }
                found
            } else {
                let lowered_text = to_lowercase(text);
                substring_spans(lowered_text.as_str().as_bytes(), lowered.as_str().as_bytes(), width)
            };
            segments_for(&spans, len)
        },
        Some(FilterSpec::Regex(re)) => {
            let spans = regex_find_spans(re, text);
            segments_for(&spans, len)
        },
    }
}

} // verus!
