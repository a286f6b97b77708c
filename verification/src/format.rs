//! Detection of the layout of a FIX log (field separator, line prefix, line
//! ending) from a small sample of its first bytes.
use vstd::prelude::*;

use crate::bytes::{find_byte_from, lemma_next_byte_bounds, find_spec, first_occurrence, is_digit, lemma_first_occurrence_unique, next_byte, occurs_at};

verus! {

/// Everything needed to read a FIX log: how fields are separated, how each
/// line is prefixed, what encoding is used, and how lines end.
#[derive(Debug, Clone, Copy, PartialEq, Eq, Structural)]
pub struct LogFormat {
    pub separator: Separator,
    pub line_prefix: LinePrefix,
    pub encoding: Encoding,
    pub line_ending: LineEnding,
    pub message_boundary: MessageBoundary,
}

/// Byte that separates `tag=value` pairs inside a single FIX message.
#[derive(Debug, Clone, Copy, PartialEq, Eq, Structural)]
pub enum Separator {
    /// Standard FIX separator, ASCII `0x01`.
    Soh,
    /// `|`, common in human-readable logs.
    Pipe,
    /// `^`, used by some legacy tools that escape SOH as `^A`.
    Caret,
    /// `;`, occasionally used by hand-rolled loggers.
    Semicolon,
    /// Anything else.
    Custom(u8),
}

/// The byte a separator stands for.
pub open spec fn separator_byte(s: Separator) -> u8 {
    match s {
        Separator::Soh => 1u8,
        Separator::Pipe => 124u8,
        Separator::Caret => 94u8,
        Separator::Semicolon => 59u8,
        Separator::Custom(b) => b,
    }
}

impl Separator {
    /// Byte representation of this separator.
    pub fn as_byte(self) -> (b: u8)
        ensures
            b == separator_byte(self),
    {
        match self {
            Separator::Soh => 0x01,
            Separator::Pipe => 124u8,
            Separator::Caret => 94u8,
            Separator::Semicolon => 59u8,
            Separator::Custom(b) => b,
        }
    }
}

/// What appears at the start of each line, before the FIX `8=` BeginString tag.
#[derive(Debug, Clone, Copy, PartialEq, Eq, Structural)]
pub enum LinePrefix {
    /// No prefix; lines start directly at `8=`.
    NoPrefix,
    /// A fixed number of bytes to strip from the beginning of each line.
    Fixed(usize),
}

/// Character encoding of the file.
#[derive(Debug, Clone, Copy, PartialEq, Eq, Structural)]
pub enum Encoding {
    /// ASCII / UTF-8.
    Utf8,
}

/// Line terminator used by the file.
#[derive(Debug, Clone, Copy, PartialEq, Eq, Structural)]
pub enum LineEnding {
    /// Unix-style `\n`.
    Lf,
    /// Windows-style `\r\n`.
    CrLf,
}

/// How to find the boundary between two FIX messages.
#[derive(Debug, Clone, Copy, PartialEq, Eq, Structural)]
pub enum MessageBoundary {
    /// One message per line.
    Line,
    /// Messages can span lines; the CheckSum (tag 10) ends each message.
    Checksum,
}

/// Errors produced by [`sniff`] when it cannot determine the format.
#[derive(Debug, Clone, Copy, PartialEq, Eq, Structural)]
pub enum SniffError {
    /// The sample is empty.
    EmptySample,
    /// No `8=FIX` BeginString was found on any line of the sample.
    NoBeginString,
    /// No candidate separator byte introduces a `<digits>=` field anywhere.
    NoSeparator,
}

// ---------------------------------------------------------------------------
// Line ending
// ---------------------------------------------------------------------------
/// Position `a` starts a `\r\n` pair.
pub open spec fn crlf_at(s: Seq<u8>, a: int) -> bool {
    0 <= a && a + 1 < s.len() && s[a] == 13u8 && s[a + 1] == 10u8
}

/// The sample holds a `\r\n` pair.
pub open spec fn has_crlf(s: Seq<u8>) -> bool {
    exists|a: int| #[trigger] crlf_at(s, a)
}

/// The line ending the sniffer reports for a sample.
pub open spec fn spec_line_ending(s: Seq<u8>) -> LineEnding {
    if has_crlf(s) {
        LineEnding::CrLf
    } else {
        LineEnding::Lf
    }
}

/// CRLF when any `\r\n` occurs in the sample, LF otherwise.
pub fn detect_line_ending(sample: &[u8]) -> (r: LineEnding)
    ensures
        r == spec_line_ending(sample@),
{
    let mut i: usize = 0;
    while i < sample.len()
        invariant
            i <= sample@.len(),
            forall|a: int| 0 <= a < i ==> !#[trigger] crlf_at(sample@, a),
        decreases sample@.len() - i,
    {
        match find_byte_from(sample, 13u8, i) {
            Some(abs) => {
                if abs + 1 < sample.len() && sample[abs + 1] == 10u8 {
                    assert(crlf_at(sample@, abs as int));
                    return LineEnding::CrLf;
                }
                assert forall|a: int| 0 <= a < abs + 1 implies !#[trigger] crlf_at(sample@, a) by {
                    if a >= i && a < abs {
                        assert(sample@[a] != 13u8);
                    }
                }
                i = abs + 1;
            },
            None => {
                assert forall|a: int| 0 <= a implies !#[trigger] crlf_at(sample@, a) by {
                    if a >= i && a < sample@.len() {
                        assert(sample@[a] != 13u8);
                    }
                }
                return LineEnding::Lf;
            },
        }
    }
    LineEnding::Lf
}

// ---------------------------------------------------------------------------
// Separator
// ---------------------------------------------------------------------------
/// Index of the first byte at or after `i` that is not an ASCII digit (or the
/// length of `s`).
pub open spec fn digit_run_end(s: Seq<u8>, i: int) -> int
    decreases s.len() - i,
{
    if i < 0 || i >= s.len() {
        if i < 0 { 0 } else { i }
    } else if is_digit(s[i]) {
        digit_run_end(s, i + 1)
    } else {
        i
    }
}

/// Position `a` holds `sep` followed by at least one digit and then `=`: the
/// fingerprint of a FIX field boundary.
pub open spec fn is_field_boundary(s: Seq<u8>, sep: u8, a: int) -> bool {
    &&& 0 <= a < s.len()
    &&& s[a] == sep
    &&& digit_run_end(s, a + 1) > a + 1
    &&& digit_run_end(s, a + 1) < s.len()
    &&& s[digit_run_end(s, a + 1)] == 61u8
}

/// Number of field boundaries for `sep` among the first `n` positions.
pub open spec fn count_boundaries(s: Seq<u8>, sep: u8, n: int) -> nat
    decreases n,
{
    if n <= 0 {
        0
    } else {
        count_boundaries(s, sep, n - 1) + if is_field_boundary(s, sep, n - 1) {
            1nat
        } else {
            0nat
        }
    }
}

/// Number of field boundaries for `sep` in the whole sample.
pub open spec fn field_boundaries(s: Seq<u8>, sep: u8) -> nat {
    count_boundaries(s, sep, s.len() as int)
}

proof fn lemma_count_no_sep(s: Seq<u8>, sep: u8, i: int, j: int)
    requires
        0 <= i <= j <= s.len(),
        forall|k: int| i <= k < j ==> s[k] != sep,
    ensures
        count_boundaries(s, sep, j) == count_boundaries(s, sep, i),
    decreases j - i,
{
    if i < j {
        lemma_count_no_sep(s, sep, i, j - 1);
    }
}

proof fn lemma_count_le(s: Seq<u8>, sep: u8, n: int)
    ensures
        count_boundaries(s, sep, n) <= if n < 0 { 0 } else { n },
    decreases n,
{
    if n > 0 {
        lemma_count_le(s, sep, n - 1);
    }
}

/// Index just past the run of ASCII digits starting at `from`.
pub(crate) fn scan_digits(sample: &[u8], from: usize) -> (j: usize)
    requires
        from <= sample@.len(),
    ensures
        j == digit_run_end(sample@, from as int),
        from <= j <= sample@.len(),
{
    let mut j = from;
    while j < sample.len() && sample[j] >= 48u8 && sample[j] <= 57u8
        invariant
            from <= j <= sample@.len(),
            digit_run_end(sample@, j as int) == digit_run_end(sample@, from as int),
        decreases sample@.len() - j,
    {
        j += 1;
    }
    j
}

/// Count occurrences of `<sep><digit>+=` in `sample`: the fingerprint of a
/// FIX field boundary regardless of the rest of the message contents.
pub fn count_field_boundaries(sample: &[u8], sep: u8) -> (count: usize)
    ensures
        count == field_boundaries(sample@, sep),
{
    let mut count: usize = 0;
    let mut i: usize = 0;
    while i < sample.len()
        invariant
            i <= sample@.len(),
            count == count_boundaries(sample@, sep, i as int),
        decreases sample@.len() - i,
    {
        match find_byte_from(sample, sep, i) {
            Some(abs) => {
                proof {
                    lemma_count_no_sep(sample@, sep, i as int, abs as int);
                    lemma_count_le(sample@, sep, abs as int);
                }
                let j = scan_digits(sample, abs + 1);
                if j > abs + 1 && j < sample.len() && sample[j] == 61u8 {
                    count += 1;
                }
                i = abs + 1;
            },
            None => {
                proof {
                    lemma_count_no_sep(sample@, sep, i as int, sample@.len() as int);
                }
                i = sample.len();
            },
        }
    }
    count
}

/// One step of the separator election: a candidate with a non-zero count
/// replaces the current best only when its count is strictly larger.
pub open spec fn elect(best: Option<(nat, Separator)>, count: nat, sep: Separator) -> Option<(nat, Separator)> {
    if count == 0 {
        best
    } else {
        match best {
            Some((c, _)) if count <= c => best,
            _ => Some((count, sep)),
        }
    }
}

/// The separator the sniffer elects: among SOH, `|`, `^` and `;` (in that
/// order) the first one whose number of field boundaries is the largest and
/// non-zero.
pub open spec fn spec_detect_separator(s: Seq<u8>) -> Result<Separator, SniffError> {
    let b1 = elect(None, field_boundaries(s, 1u8), Separator::Soh);
    let b2 = elect(b1, field_boundaries(s, 124u8), Separator::Pipe);
    let b3 = elect(b2, field_boundaries(s, 94u8), Separator::Caret);
    let b4 = elect(b3, field_boundaries(s, 59u8), Separator::Semicolon);
    match b4 {
        Some((_, sep)) => Ok(sep),
        None => Err(SniffError::NoSeparator),
    }
}

/// The sniffer elects the candidate with the most field boundaries: the
/// elected separator is one of SOH, `|`, `^`, `;` with a non-zero count no
/// smaller than any other candidate's; a candidate whose count is larger
/// than every other's is the one elected; and no separator is found
/// exactly when no candidate introduces a field boundary.
pub proof fn law_separator_has_most_boundaries(s: Seq<u8>)
    ensures
        ({
            let soh = field_boundaries(s, 1u8);
            let pipe = field_boundaries(s, 124u8);
            let caret = field_boundaries(s, 94u8);
            let semi = field_boundaries(s, 59u8);
            let count_of = |sep: Separator| if sep == Separator::Soh {
                soh
            } else if sep == Separator::Pipe {
                pipe
            } else if sep == Separator::Caret {
                caret
            } else {
                semi
            };
            &&& (spec_detect_separator(s) matches Ok(sep) ==> {
                &&& (sep == Separator::Soh || sep == Separator::Pipe || sep == Separator::Caret
                    || sep == Separator::Semicolon)
                &&& count_of(sep) > 0
                &&& count_of(sep) >= soh && count_of(sep) >= pipe && count_of(sep) >= caret && count_of(sep) >= semi
            })
            &&& (spec_detect_separator(s) is Err <==> (soh == 0 && pipe == 0 && caret == 0 && semi == 0))
            &&& (soh > pipe && soh > caret && soh > semi ==> spec_detect_separator(s) == Ok::<Separator, SniffError>(Separator::Soh))
            &&& (pipe > soh && pipe > caret && pipe > semi ==> spec_detect_separator(s) == Ok::<Separator, SniffError>(Separator::Pipe))
            &&& (caret > soh && caret > pipe && caret > semi ==> spec_detect_separator(s) == Ok::<Separator, SniffError>(Separator::Caret))
            &&& (semi > soh && semi > pipe && semi > caret ==> spec_detect_separator(s) == Ok::<Separator, SniffError>(Separator::Semicolon))
        }),
{
}

/// A machine-sized election state seen as a mathematical one.
pub open spec fn widen(o: Option<(usize, Separator)>) -> Option<(nat, Separator)> {
    match o {
        Some((c, s)) => Some((c as nat, s)),
        None => None,
    }
}

fn elect_exec(best: Option<(usize, Separator)>, count: usize, sep: Separator) -> (r: Option<(usize, Separator)>)
    ensures
        widen(r) == elect(widen(best), count as nat, sep),
{
    if count == 0 {
        return best;
    }
    match best {
        Some((c, _)) if count <= c => best,
        _ => Some((count, sep)),
    }
}

/// Elect the field separator of the sample (see [`spec_detect_separator`]).
pub fn detect_separator(sample: &[u8]) -> (r: Result<Separator, SniffError>)
    ensures
        r == spec_detect_separator(sample@),
{
    let best = elect_exec(None, count_field_boundaries(sample, 0x01), Separator::Soh);
    let best = elect_exec(best, count_field_boundaries(sample, 124u8), Separator::Pipe);
    let best = elect_exec(best, count_field_boundaries(sample, 94u8), Separator::Caret);
    let best = elect_exec(best, count_field_boundaries(sample, 59u8), Separator::Semicolon);
    match best {
        Some((_, s)) => Ok(s),
        None => Err(SniffError::NoSeparator),
    }
}

// ---------------------------------------------------------------------------
// Lines and line prefix
// ---------------------------------------------------------------------------
/// Drop one trailing `\r` when the file uses CRLF line endings.
pub open spec fn trim_cr(line: Seq<u8>, crlf: bool) -> Seq<u8> {
    if crlf && line.len() > 0 && line.last() == 13u8 {
        line.drop_last()
    } else {
        line
    }
}

/// The non-empty lines of `s` from byte `start` on, split at `\n` (with the
/// `\r` of a CRLF ending removed).
pub open spec fn lines_from(s: Seq<u8>, crlf: bool, start: int) -> Seq<Seq<u8>>
    decreases s.len() + 1 - start
    via lines_from_decreases
{
    if start < 0 || start >= s.len() {
        seq![]
    } else {
        let end = next_byte(s, 10u8, start);
        let line = trim_cr(s.subrange(start, end), crlf);
        if line.len() == 0 {
            lines_from(s, crlf, end + 1)
        } else {
            seq![line] + lines_from(s, crlf, end + 1)
        }
    }
}

#[via_fn]
proof fn lines_from_decreases(s: Seq<u8>, crlf: bool, start: int) {
    if 0 <= start < s.len() {
        lemma_next_byte_bounds(s, 10u8, start);
    }
}

/// The views of a sequence of byte slices.
pub open spec fn slice_views(v: Seq<&[u8]>) -> Seq<Seq<u8>> {
    Seq::new(v.len(), |i: int| v[i]@)
}

/// Split `sample` into its non-empty lines.
fn sample_lines<'a>(sample: &'a [u8], line_ending: LineEnding) -> (lines: Vec<&'a [u8]>)
    ensures
        slice_views(lines@) == lines_from(sample@, line_ending == LineEnding::CrLf, 0),
{
    let crlf = match line_ending {
        LineEnding::Lf => false,
        LineEnding::CrLf => true,
    };
    let ghost all = lines_from(sample@, crlf, 0);
    let mut lines: Vec<&'a [u8]> = Vec::new();
    let mut start: usize = 0;
    while start < sample.len()
        invariant
            start <= sample@.len() + 1,
            all == lines_from(sample@, crlf, 0),
            slice_views(lines@) + lines_from(sample@, crlf, start as int) == all,
        decreases sample@.len() - start,
    {
        let end = match find_byte_from(sample, 10u8, start) {
            Some(i) => i,
            None => sample.len(),
        };
        proof {
            lemma_next_byte_bounds(sample@, 10u8, start as int);
        }
        let mut line = &sample[start..end];
        if crlf && line.len() > 0 && line[line.len() - 1] == 13u8 {
            line = &line[0..line.len() - 1];
        }
        let ghost before = slice_views(lines@);
        if line.len() > 0 {
            lines.push(line);
            assert(slice_views(lines@) == before.push(line@));
        }
        assert(line@ == trim_cr(sample@.subrange(start as int, end as int), crlf));
        proof {
            let rest = lines_from(sample@, crlf, end + 1);
            if line@.len() == 0 {
                assert(lines_from(sample@, crlf, start as int) == rest);
                assert(slice_views(lines@) == before);
            } else {
                assert(lines_from(sample@, crlf, start as int) == seq![line@] + rest);
                assert(slice_views(lines@) + rest == before + (seq![line@] + rest));
            }
        }
        if end < sample.len() {
            start = end + 1;
        } else {
            start = sample.len();
        }
    }
    assert(lines_from(sample@, crlf, start as int) == Seq::<Seq<u8>>::empty());
    assert(slice_views(lines@) + Seq::<Seq<u8>>::empty() == slice_views(lines@));
    lines
}

/// The BeginString marker `8=FIX`.
pub open spec fn begin_marker() -> Seq<u8> {
    seq![56u8, 61u8, 70u8, 73u8, 88u8]
}

fn begin_marker_exec() -> (v: Vec<u8>)
    ensures
        v@ == begin_marker(),
{
    let v = vec![56u8, 61u8, 70u8, 73u8, 88u8];
    assert(v@ == begin_marker());
    v
}

/// Position of the first occurrence of a non-empty `needle` in `hay`.
pub open spec fn spec_find_subslice(hay: Seq<u8>, needle: Seq<u8>) -> Option<int> {
    if needle.len() == 0 || hay.len() < needle.len() {
        None
    } else {
        find_spec(hay, needle)
    }
}

fn window_eq(hay: &[u8], p: usize, needle: &[u8]) -> (b: bool)
    requires
        p + needle@.len() <= hay@.len(),
    ensures
        b == occurs_at(hay@, needle@, p as int),
{
    let mut k: usize = 0;
    assert(hay@.len() == hay.len());
    while k < needle.len()
        invariant
            hay@.len() <= usize::MAX,
            k <= needle@.len(),
            p + needle@.len() <= hay@.len(),
            forall|m: int| 0 <= m < k ==> hay@[p + m] == needle@[m],
        decreases needle@.len() - k,
    {
        if hay[p + k] != needle[k] {
            assert(hay@.subrange(p as int, p + needle@.len())[k as int] != needle@[k as int]);
            return false;
        }
        k += 1;
    }
    assert(hay@.subrange(p as int, p + needle@.len()) =~= needle@);
    true
}

/// Position of the first occurrence of `needle` in `haystack`; `None` for an
/// empty needle or a haystack shorter than it.
pub fn find_subslice(haystack: &[u8], needle: &[u8]) -> (r: Option<usize>)
    ensures
        match r {
            Some(p) => spec_find_subslice(haystack@, needle@) == Some(p as int),
            None => spec_find_subslice(haystack@, needle@) is None,
        },
{
    if needle.len() == 0 || haystack.len() < needle.len() {
        return None;
    }
    let last = haystack.len() - needle.len();
    let mut p: usize = 0;
    assert(haystack@.len() == haystack.len());
    while p <= last
        invariant
            haystack@.len() <= usize::MAX,
            needle@.len() > 0,
            last + needle@.len() == haystack@.len(),
            p <= last + 1,
            forall|q: int| 0 <= q < p ==> !occurs_at(haystack@, needle@, q),
        decreases last + 1 - p,
    {
        if window_eq(haystack, p, needle) {
            proof {
                assert(first_occurrence(haystack@, needle@, p as int));
                assert(exists|q: int| first_occurrence(haystack@, needle@, q));
                let q = choose|q: int| first_occurrence(haystack@, needle@, q);
                lemma_first_occurrence_unique(haystack@, needle@, p as int, q);
            }
            return Some(p);
        }
        p += 1;
    }
    assert(forall|q: int| #![auto] 0 <= q && !(q < p) ==> !occurs_at(haystack@, needle@, q));
    assert(!exists|q: int| first_occurrence(haystack@, needle@, q));
    None
}

/// Positions of the BeginString marker, one per line that holds it.
pub open spec fn marker_positions(lines: Seq<Seq<u8>>) -> Seq<int>
    decreases lines.len(),
{
    if lines.len() == 0 {
        seq![]
    } else {
        let rest = marker_positions(lines.drop_last());
        match spec_find_subslice(lines.last(), begin_marker()) {
            Some(p) => rest.push(p),
            None => rest,
        }
    }
}

/// The line prefix the sniffer reports: the common offset of `8=FIX` across
/// the lines that contain it (`NoPrefix` when it is zero or differs between
/// lines); an error when no line contains it.
pub open spec fn spec_line_prefix(s: Seq<u8>, le: LineEnding) -> Result<LinePrefix, SniffError> {
    let ps = marker_positions(lines_from(s, le == LineEnding::CrLf, 0));
    if ps.len() == 0 {
        Err(SniffError::NoBeginString)
    } else if forall|i: int| 0 <= i < ps.len() ==> #[trigger] ps[i] == ps[0] {
        if ps[0] == 0 {
            Ok(LinePrefix::NoPrefix)
        } else {
            Ok(LinePrefix::Fixed(ps[0] as usize))
        }
    } else {
        Ok(LinePrefix::NoPrefix)
    }
}

/// Find the offset of `8=FIX` on every sampled line and report it when it is
/// consistent.
pub fn detect_line_prefix(sample: &[u8], line_ending: LineEnding) -> (r: Result<LinePrefix, SniffError>)
    ensures
        r == spec_line_prefix(sample@, line_ending),
{
    let needle = begin_marker_exec();
    let mut prefix_lens: Vec<usize> = Vec::new();
    let lines = sample_lines(sample, line_ending);
    let ghost views = slice_views(lines@);
    let mut i: usize = 0;
    while i < lines.len()
        invariant
            i <= lines@.len(),
            needle@ == begin_marker(),
            views == slice_views(lines@),
            prefix_lens@.map_values(|x: usize| x as int) == marker_positions(views.take(i as int)),
        decreases lines@.len() - i,
    {
        let line = lines[i];
        assert(views.take(i + 1).drop_last() == views.take(i as int));
        assert(views.take(i + 1).last() == line@);
        match find_subslice(line, needle.as_slice()) {
            Some(pos) => {
                let ghost old_lens = prefix_lens@;
                prefix_lens.push(pos);
                assert(prefix_lens@.map_values(|x: usize| x as int) =~= old_lens.map_values(
                    |x: usize| x as int,
                ).push(pos as int));
            },
            None => {},
        }
        i += 1;
    }
    assert(views.take(lines@.len() as int) == views);
    let ghost ps = marker_positions(views);
    assert(ps == prefix_lens@.map_values(|x: usize| x as int));
    assert(ps.len() == prefix_lens@.len());
    if prefix_lens.len() == 0 {
        return Err(SniffError::NoBeginString);
    }
    let first = prefix_lens[0];
    let mut all_same = true;
    let mut k: usize = 0;
    while k < prefix_lens.len()
        invariant
            k <= prefix_lens@.len(),
            prefix_lens@.len() > 0,
            first == prefix_lens@[0],
            all_same == forall|m: int| 0 <= m < k ==> prefix_lens@[m] == first,
        decreases prefix_lens@.len() - k,
    {
        if prefix_lens[k] != first {
            all_same = false;
        }
        k += 1;
    }
    assert forall|m: int| 0 <= m < ps.len() implies #[trigger] ps[m] == prefix_lens@[m] as int by {
        assert(ps[m] == prefix_lens@.map_values(|x: usize| x as int)[m]);
    }
    proof {
        if all_same {
            assert forall|m: int| 0 <= m < ps.len() implies #[trigger] ps[m] == ps[0] by {
                assert(prefix_lens@[m] == first);
            }
        } else {
            let m = choose|m: int| 0 <= m < prefix_lens@.len() && prefix_lens@[m] != first;
            assert(ps[m] != ps[0]);
        }
    }
    if all_same {
        if first == 0 {
            Ok(LinePrefix::NoPrefix)
        } else {
            Ok(LinePrefix::Fixed(first))
        }
    } else {
        Ok(LinePrefix::NoPrefix)
    }
}

// ---------------------------------------------------------------------------
// Sniffer
// ---------------------------------------------------------------------------
/// The format the sniffer reports for a sample: an error for an empty
/// sample; otherwise the line ending, the elected separator and the common
/// prefix of `8=FIX`, one message per line, UTF-8.
pub open spec fn spec_sniff(s: Seq<u8>) -> Result<LogFormat, SniffError> {
    if s.len() == 0 {
        Err(SniffError::EmptySample)
    } else {
        let line_ending = spec_line_ending(s);
        match spec_detect_separator(s) {
            Err(e) => Err(e),
            Ok(separator) => match spec_line_prefix(s, line_ending) {
                Err(e) => Err(e),
                Ok(line_prefix) => Ok(
                    LogFormat {
                        separator,
                        line_prefix,
                        encoding: Encoding::Utf8,
                        line_ending,
                        message_boundary: MessageBoundary::Line,
                    },
                ),
            },
        }
    }
}

/// Inspect `sample` (typically the first ~64 KiB of a file) and return the
/// best-guess [`LogFormat`]:
///
/// 1. the line ending is CRLF when any `\r\n` occurs, LF otherwise;
/// 2. the field separator is the candidate (`SOH`, `|`, `^`, `;`) with the
///    most `<sep><digits>+=` patterns;
/// 3. the line prefix is the offset of `8=FIX` when it is the same on every
///    sampled line that holds it.
pub fn sniff(sample: &[u8]) -> (r: Result<LogFormat, SniffError>)
    ensures
        r == spec_sniff(sample@),
{
    if sample.len() == 0 {
        return Err(SniffError::EmptySample);
    }
    let line_ending = detect_line_ending(sample);
    let separator = match detect_separator(sample) {
        Ok(s) => s,
        Err(e) => return Err(e),
    };
    let line_prefix = match detect_line_prefix(sample, line_ending) {
        Ok(p) => p,
        Err(e) => return Err(e),
    };
    Ok(
        LogFormat {
            separator,
            line_prefix,
            encoding: Encoding::Utf8,
            line_ending,
            message_boundary: MessageBoundary::Line,
        },
    )
}

} // verus!
