//! Lyric-subtitle text parser: turns line-based text with leading
//! `[mm:ss.xx]` timestamps into timestamped lines, sorted by timestamp
//! ascending. A line may carry several timestamps, each expanding into an
//! entry sharing the line's text; timestamps are held in milliseconds,
//! numeric parts that fail to parse count as zero, and values too large for
//! the representation saturate.

use vstd::prelude::*;
use vstd::string::StrSliceExecFns;
use vstd::string::StringExecFns;

verus! {

/// One timestamped lyric line; `time_ms` counts milliseconds.
pub struct LyricLine {
    pub time_ms: u64,
    pub text: String,
}

/// Mathematical counterpart of a lyric line.
pub ghost struct LyricModel {
    pub time: int,
    pub text: Seq<char>,
}

impl LyricLine {
    pub open spec fn model(&self) -> LyricModel {
        LyricModel { time: self.time_ms as int, text: self.text@ }
    }
}

/// The models of a vector of lyric lines.
pub open spec fn lyric_models(s: Seq<LyricLine>) -> Seq<LyricModel> {
    s.map_values(|l: LyricLine| l.model())
}

/// The whitespace the parser strips at line and text edges.
pub open spec fn is_lrc_space(c: char) -> bool {
    c == ' ' || c == '\t' || c == '\r'
}

/// First index at or after `i` holding something other than whitespace.
pub open spec fn skip_space(s: Seq<char>, i: int) -> int
    decreases s.len() - i,
{
    if 0 <= i < s.len() && is_lrc_space(s[i]) {
        skip_space(s, i + 1)
    } else {
        i
    }
}

/// Last bound at or before `j` with no trailing whitespace before it.
pub open spec fn rskip_space(s: Seq<char>, j: int) -> int
    decreases j,
{
    if 0 < j <= s.len() && is_lrc_space(s[j - 1]) {
        rskip_space(s, j - 1)
    } else {
        j
    }
}

/// `s` with leading and trailing whitespace removed.
pub open spec fn trim_chars(s: Seq<char>) -> Seq<char> {
    let lo = skip_space(s, 0);
    let hi = rskip_space(s, s.len() as int);
    if lo < hi {
        s.subrange(lo, hi)
    } else {
        Seq::empty()
    }
}

/// First index at or after `i` holding `c`, or the length when none does.
pub open spec fn find_from(s: Seq<char>, i: int, c: char) -> int
    decreases s.len() - i,
{
    if 0 <= i < s.len() {
        if s[i] == c {
            i
        } else {
            find_from(s, i + 1, c)
        }
    } else {
        s.len() as int
    }
}

pub open spec fn is_digit(c: char) -> bool {
    '0' <= c && c <= '9'
}

pub open spec fn all_digits(s: Seq<char>) -> bool {
    forall|i: int| 0 <= i < s.len() ==> is_digit(#[trigger] s[i])
}

pub open spec fn digit_val(c: char) -> int {
    c as u32 - 48
}

pub open spec fn u64_top() -> int {
    0xFFFFFFFFFFFFFFFF
}

/// Saturate at the largest representable millisecond count.
pub open spec fn sat64(x: int) -> int {
    if x > u64_top() {
        u64_top()
    } else {
        x
    }
}

/// The value of a digit string, saturating digit by digit.
pub open spec fn sat_digits_val(s: Seq<char>) -> int
    decreases s.len(),
{
    if s.len() == 0 {
        0
    } else {
        sat64(sat_digits_val(s.drop_last()) * 10 + digit_val(s.last()))
    }
}

/// The minutes field: its digit value, or zero when it is empty or not all
/// digits.
pub open spec fn minutes_val(mm: Seq<char>) -> int {
    if mm.len() > 0 && all_digits(mm) {
        sat_digits_val(mm)
    } else {
        0
    }
}

/// Milliseconds contributed by a fraction field: the first three digits,
/// scaled; further digits are beyond the resolution and ignored.
pub open spec fn frac_ms(fp: Seq<char>) -> int {
    if fp.len() == 0 {
        0
    } else if fp.len() == 1 {
        digit_val(fp[0]) * 100
    } else if fp.len() == 2 {
        digit_val(fp[0]) * 100 + digit_val(fp[1]) * 10
    } else {
        digit_val(fp[0]) * 100 + digit_val(fp[1]) * 10 + digit_val(fp[2])
    }
}

/// The seconds field `dd[.ff]` in milliseconds, or zero when it does not
/// have that shape.
pub open spec fn seconds_ms(ss: Seq<char>) -> int {
    let d = find_from(ss, 0, '.');
    let ip = ss.subrange(0, d);
    let fp = if d < ss.len() {
        ss.subrange(d + 1, ss.len() as int)
    } else {
        Seq::empty()
    };
    if ip.len() + fp.len() > 0 && all_digits(ip) && all_digits(fp) {
        sat64(sat_digits_val(ip) * 1000 + frac_ms(fp))
    } else {
        0
    }
}

/// The milliseconds a stamp body `mm:ss.xx` stands for; a body without a
/// colon is no timestamp at all.
pub open spec fn stamp_ms(body: Seq<char>) -> Option<int> {
    let c = find_from(body, 0, ':');
    if c >= body.len() {
        Option::None
    } else {
        Option::Some(
            sat64(
                minutes_val(body.subrange(0, c)) * 60000 + seconds_ms(
                    body.subrange(c + 1, body.len() as int),
                ),
            ),
        )
    }
}

/// The timestamps of the bracketed stamps standing at `q`, in order. An
/// unclosed bracket ends the collection.
pub open spec fn stamps_times(line: Seq<char>, q: int) -> Seq<int>
    decreases line.len() - q,
{
    if 0 <= q < line.len() && line[q] == '[' {
        let r = find_from(line, q + 1, ']');
        if q + 1 <= r < line.len() {
            match stamp_ms(line.subrange(q + 1, r)) {
                Option::Some(t) => seq![t] + stamps_times(line, r + 1),
                Option::None => stamps_times(line, r + 1),
            }
        } else {
            Seq::empty()
        }
    } else {
        Seq::empty()
    }
}

/// Where the text begins: just past the stamps consumed from `q` on.
pub open spec fn stamps_end(line: Seq<char>, q: int) -> int
    decreases line.len() - q,
{
    if 0 <= q < line.len() && line[q] == '[' {
        let r = find_from(line, q + 1, ']');
        if q + 1 <= r < line.len() {
            stamps_end(line, r + 1)
        } else {
            q
        }
    } else {
        q
    }
}

/// The entries one raw line contributes: one per leading timestamp, all
/// sharing the trimmed remainder as text. A line empty after trimming
/// contributes nothing.
pub open spec fn line_models(raw: Seq<char>) -> Seq<LyricModel> {
    let line = trim_chars(raw);
    if line.len() == 0 {
        Seq::empty()
    } else {
        let times = stamps_times(line, 0);
        let text = trim_chars(line.subrange(stamps_end(line, 0), line.len() as int));
        times.map_values(|t: int| LyricModel { time: t, text })
    }
}

/// All entries of the text from `pos` on, line by line; lines are separated
/// by newline characters.
pub open spec fn lrc_entries_from(s: Seq<char>, pos: int) -> Seq<LyricModel>
    decreases s.len() - pos,
{
    if pos < 0 || pos >= s.len() {
        Seq::empty()
    } else {
        let eol = find_from(s, pos, '\n');
        if pos <= eol {
            let next = if eol + 1 <= s.len() {
                eol + 1
            } else {
                s.len() as int
            };
            line_models(s.subrange(pos, eol)) + lrc_entries_from(s, next)
        } else {
            Seq::empty()
        }
    }
}

/// Sorted by time, ascending.
pub open spec fn lyrics_sorted(s: Seq<LyricModel>) -> bool {
    forall|i: int, j: int| 0 <= i < j < s.len() ==> s[i].time <= s[j].time
}

/// Insert `e` behind every entry whose time is at most `e`'s.
pub open spec fn insert_lyric(s: Seq<LyricModel>, e: LyricModel) -> Seq<LyricModel>
    decreases s.len(),
{
    if s.len() == 0 {
        seq![e]
    } else if s.last().time <= e.time {
        s.push(e)
    } else {
        insert_lyric(s.drop_last(), e).push(s.last())
    }
}

/// Stable sort by time: ties keep the order the entries were produced in.
pub open spec fn sort_lyrics_model(s: Seq<LyricModel>) -> Seq<LyricModel>
    decreases s.len(),
{
    if s.len() == 0 {
        Seq::empty()
    } else {
        insert_lyric(sort_lyrics_model(s.drop_last()), s.last())
    }
}

/// What parsing a lyric text yields: each line's entries in text order,
/// stably sorted by timestamp.
pub open spec fn spec_parse_lrc(s: Seq<char>) -> Seq<LyricModel> {
    sort_lyrics_model(lrc_entries_from(s, 0))
}

/// Inserting keeps a sorted sequence sorted.
proof fn lemma_insert_lyric_sorted(s: Seq<LyricModel>, e: LyricModel)
    requires
        lyrics_sorted(s),
    ensures
        lyrics_sorted(insert_lyric(s, e)),
        insert_lyric(s, e).len() == s.len() + 1,
    decreases s.len(),
{
    if s.len() == 0 {
    } else if s.last().time <= e.time {
        let r = s.push(e);
        assert forall|i: int, j: int| 0 <= i < j < r.len() implies r[i].time <= r[j].time by {
            if j < s.len() {
            } else {
                if i < s.len() - 1 {
                    assert(s[i].time <= s[s.len() - 1].time);
                }
            }
        }
    } else {
        assert(lyrics_sorted(s.drop_last())) by {
            assert(forall|i: int, j: int|
                0 <= i < j < s.drop_last().len() ==> s.drop_last()[i] == s[i]
                    && s.drop_last()[j] == s[j]);
        }
        lemma_insert_lyric_sorted(s.drop_last(), e);
        let inner = insert_lyric(s.drop_last(), e);
        let r = inner.push(s.last());
        lemma_insert_lyric_all(s.drop_last(), e, |x: LyricModel| x.time <= s.last().time);
        assert forall|i: int, j: int| 0 <= i < j < r.len() implies r[i].time <= r[j].time by {
            if j == r.len() - 1 {
                assert(r[i] == inner[i]);
                assert((|x: LyricModel| x.time <= s.last().time)(inner[i]));
            }
        }
    }
}

/// Inserting preserves any property the entries all have.
proof fn lemma_insert_lyric_all(s: Seq<LyricModel>, e: LyricModel, p: spec_fn(LyricModel) -> bool)
    requires
        forall|i: int| 0 <= i < s.len() ==> p(#[trigger] s[i]),
        p(e),
    ensures
        forall|i: int| 0 <= i < insert_lyric(s, e).len() ==> p(#[trigger] insert_lyric(s, e)[i]),
    decreases s.len(),
{
    let r = insert_lyric(s, e);
    if s.len() == 0 {
        assert(r[0] == e);
    } else if s.last().time <= e.time {
        assert forall|i: int| 0 <= i < r.len() implies p(r[i]) by {
            if i < s.len() {
                assert(r[i] == s[i]);
            } else {
                assert(r[i] == e);
            }
        }
    } else {
        assert(forall|i: int| 0 <= i < s.drop_last().len() ==> p(#[trigger] s.drop_last()[i]))
            by {
            assert(forall|i: int| 0 <= i < s.drop_last().len() ==> s.drop_last()[i] == s[i]);
        }
        lemma_insert_lyric_all(s.drop_last(), e, p);
        let inner = insert_lyric(s.drop_last(), e);
        assert forall|i: int| 0 <= i < r.len() implies p(r[i]) by {
            if i < inner.len() {
                assert(r[i] == inner[i]);
                assert(p(inner[i]));
            } else {
                assert(r[i] == s.last());
                assert(p(s[s.len() - 1]));
            }
        }
    }
}

/// Sorting yields a sorted sequence of the same length.
pub proof fn lemma_sort_lyrics_sorted(s: Seq<LyricModel>)
    ensures
        lyrics_sorted(sort_lyrics_model(s)),
        sort_lyrics_model(s).len() == s.len(),
    decreases s.len(),
{
    if s.len() > 0 {
        lemma_sort_lyrics_sorted(s.drop_last());
        lemma_insert_lyric_sorted(sort_lyrics_model(s.drop_last()), s.last());
    }
}

/// Where the exec insertion loop stops is exactly where `insert_lyric`
/// places the entry.
proof fn lemma_insert_lyric_at(s: Seq<LyricModel>, e: LyricModel, j: int)
    requires
        0 <= j <= s.len(),
        forall|k: int| j <= k < s.len() ==> s[k].time > e.time,
        j > 0 ==> s[j - 1].time <= e.time,
    ensures
        insert_lyric(s, e) =~= s.subrange(0, j) + seq![e] + s.subrange(j, s.len() as int),
    decreases s.len(),
{
    if s.len() == 0 {
    } else if j == s.len() {
        assert(s.subrange(0, j) =~= s);
    } else {
        assert(s.last().time > e.time);
        assert(forall|k: int| j <= k < s.drop_last().len() ==> s.drop_last()[k] == s[k]);
        assert(j > 0 ==> s.drop_last()[j - 1] == s[j - 1]);
        lemma_insert_lyric_at(s.drop_last(), e, j);
        assert(s.drop_last().subrange(0, j) =~= s.subrange(0, j));
        assert(s.drop_last().subrange(j, s.drop_last().len() as int) =~= s.subrange(
            j,
            s.len() - 1,
        ));
        assert((s.subrange(0, j) + seq![e] + s.subrange(j, s.len() - 1)).push(s.last()) =~= s
            .subrange(0, j) + seq![e] + s.subrange(j, s.len() as int));
    }
}

/// A stopped left-to-right scan pins down `find_from`.
proof fn lemma_find_at(s: Seq<char>, i: int, stop: int, c: char)
    requires
        0 <= i <= stop <= s.len(),
        forall|l: int| i <= l < stop ==> s[l] != c,
        stop == s.len() || s[stop] == c,
    ensures
        find_from(s, i, c) == stop,
    decreases stop - i,
{
    if i < stop {
        lemma_find_at(s, i + 1, stop, c);
    }
}

/// A stopped left-to-right scan pins down `skip_space`.
proof fn lemma_skip_space_at(s: Seq<char>, i: int, stop: int)
    requires
        0 <= i <= stop <= s.len(),
        forall|l: int| i <= l < stop ==> is_lrc_space(#[trigger] s[l]),
        stop == s.len() || !is_lrc_space(s[stop]),
    ensures
        skip_space(s, i) == stop,
    decreases stop - i,
{
    if i < stop {
        lemma_skip_space_at(s, i + 1, stop);
    }
}

/// A stopped right-to-left scan pins down `rskip_space`.
proof fn lemma_rskip_space_at(s: Seq<char>, j: int, stop: int)
    requires
        0 <= stop <= j <= s.len(),
        forall|l: int| stop <= l < j ==> is_lrc_space(#[trigger] s[l]),
        stop == 0 || !is_lrc_space(s[stop - 1]),
    ensures
        rskip_space(s, j) == stop,
    decreases j - stop,
{
    if stop < j {
        lemma_rskip_space_at(s, j - 1, stop);
    }
}

/// Find the first occurrence of `c` in `s` at or after `from`, up to `to`.
fn find_char(s: &str, from: usize, to: usize, c: char) -> (r: usize)
    requires
        from <= to,
        to == s@.len(),
    ensures
        r == find_from(s@, from as int, c),
        from <= r <= to,
{
    let mut i: usize = from;
    while i < to
        invariant
            from <= i <= to,
            to == s@.len(),
            forall|l: int| from <= l < i ==> s@[l] != c,
        decreases to - i,
    {
        if s.get_char(i) == c {
            proof {
                lemma_find_at(s@, from as int, i as int, c);
            }
            return i;
        }
        i += 1;
    }
    proof {
        lemma_find_at(s@, from as int, to as int, c);
    }
    to
}

/// The trimmed range of `s` between `from` and `to`: whitespace stripped
/// from both ends.
fn trim_range(s: &str, from: usize, to: usize) -> (r: (usize, usize))
    requires
        from <= to,
        to <= s@.len(),
    ensures
        r.0 == skip_space(s@.subrange(from as int, to as int), 0) + from,
        r.1 == rskip_space(s@.subrange(from as int, to as int), to - from) + from,
        from <= r.0 <= to,
        from <= r.1 <= to,
{
    let ghost sub = s@.subrange(from as int, to as int);
    let mut lo: usize = from;
    while lo < to && is_space_char(s.get_char(lo))
        invariant
            from <= lo <= to,
            to <= s@.len(),
            forall|l: int| from <= l < lo ==> is_lrc_space(#[trigger] s@[l]),
        decreases to - lo,
    {
        lo += 1;
    }
    proof {
        assert(forall|l: int| 0 <= l < lo - from ==> is_lrc_space(#[trigger] sub[l]));
        assert(lo - from == sub.len() || !is_lrc_space(sub[lo - from]));
        lemma_skip_space_at(sub, 0, lo - from);
    }
    let mut hi: usize = to;
    while hi > from && is_space_char(s.get_char(hi - 1))
        invariant
            from <= hi <= to,
            to <= s@.len(),
            forall|l: int| hi <= l < to ==> is_lrc_space(#[trigger] s@[l]),
        decreases hi,
    {
        hi -= 1;
    }
    proof {
        assert(forall|l: int| hi - from <= l < to - from ==> is_lrc_space(#[trigger] sub[l]));
        assert(hi - from == 0 || !is_lrc_space(sub[hi - from - 1]));
        lemma_rskip_space_at(sub, to - from, hi - from);
    }
    (lo, hi)
}

/// Whitespace test matching `is_lrc_space`.
fn is_space_char(c: char) -> (r: bool)
    ensures
        r == is_lrc_space(c),
{
    c == ' ' || c == '\t' || c == '\r'
}

/// Digit-string value between `from` and `to`, saturating; the flag says
/// whether every character was a digit.
fn digits_value(s: &str, from: usize, to: usize) -> (r: (bool, u64))
    requires
        from <= to,
        to <= s@.len(),
    ensures
        r.0 == all_digits(s@.subrange(from as int, to as int)),
        r.0 ==> r.1 as int == sat_digits_val(s@.subrange(from as int, to as int)),
{
    let ghost sub = s@.subrange(from as int, to as int);
    let mut acc: u64 = 0;
    let mut k: usize = from;
    while k < to
        invariant
            from <= k <= to,
            to <= s@.len(),
            sub == s@.subrange(from as int, to as int),
            forall|l: int| 0 <= l < k - from ==> is_digit(#[trigger] sub[l]),
            acc as int == sat_digits_val(sub.subrange(0, k - from)),
        decreases to - k,
    {
        let c = s.get_char(k);
        if !(c >= '0' && c <= '9') {
            proof {
                assert(!is_digit(sub[k - from]));
            }
            return (false, 0);
        }
        let d: u64 = (c as u32 - 48) as u64;
        let wide: u128 = acc as u128 * 10 + d as u128;
        let next: u64 = if wide > 0xFFFFFFFFFFFFFFFF {
            0xFFFFFFFFFFFFFFFF
        } else {
            wide as u64
        };
        proof {
            let ghost pre = sub.subrange(0, k - from);
            let ghost cur = sub.subrange(0, k + 1 - from);
            assert(cur.drop_last() =~= pre);
            assert(cur.last() == sub[k - from]);
            assert(next as int == sat64(sat_digits_val(pre) * 10 + digit_val(sub[k - from])));
        }
        acc = next;
        k += 1;
    }
    proof {
        assert(sub.subrange(0, to - from) =~= sub);
    }
    (true, acc)
}

/// Milliseconds of a fraction field: first three digits, scaled.
fn frac_value(s: &str, from: usize, to: usize) -> (r: u64)
    requires
        from <= to,
        to <= s@.len(),
    ensures
        all_digits(s@.subrange(from as int, to as int)) ==> r as int == frac_ms(
            s@.subrange(from as int, to as int),
        ),
{
    let ghost sub = s@.subrange(from as int, to as int);
    let n: usize = to - from;
    if n == 0 {
        return 0;
    }
    let d0 = digit_of(s, from);
    if n == 1 {
        return d0 * 100;
    }
    let d1 = digit_of(s, from + 1);
    if n == 2 {
        return d0 * 100 + d1 * 10;
    }
    let d2 = digit_of(s, from + 2);
    d0 * 100 + d1 * 10 + d2
}

/// The numeric value of the character at `i`, for digits; other characters
/// yield an unspecified small value and are ruled out by the callers.
fn digit_of(s: &str, i: usize) -> (r: u64)
    requires
        i < s@.len(),
    ensures
        is_digit(s@[i as int]) ==> r as int == digit_val(s@[i as int]),
        r <= 9,
{
    let c = s.get_char(i);
    let v = c as u32;
    if v >= 48 && v <= 57 {
        (v - 48) as u64
    } else {
        0
    }
}

/// The milliseconds of one stamp body between `from` and `to`, when it has
/// a colon.
fn stamp_value(s: &str, from: usize, to: usize) -> (r: Option<u64>)
    requires
        from <= to,
        to <= s@.len(),
    ensures
        match r {
            Option::Some(v) => stamp_ms(s@.subrange(from as int, to as int)) == Option::Some(
                v as int,
            ),
            Option::None => stamp_ms(s@.subrange(from as int, to as int)) is None,
        },
{
    let ghost body = s@.subrange(from as int, to as int);
    let mut col: usize = from;
    while col < to && s.get_char(col) != ':'
        invariant
            from <= col <= to,
            to <= s@.len(),
            forall|l: int| from <= l < col ==> s@[l] != ':',
        decreases to - col,
    {
        col += 1;
    }
    proof {
        assert(forall|l: int| 0 <= l < col - from ==> body[l] != ':');
        assert(col - from == body.len() || body[col - from] == ':');
        lemma_find_at(body, 0, col - from, ':');
    }
    if col >= to {
        return Option::None;
    }
    let (mm_ok, mm_raw) = digits_value(s, from, col);
    let mm: u64 = if mm_ok && col > from {
        mm_raw
    } else {
        0
    };
    proof {
        assert(body.subrange(0, col - from) =~= s@.subrange(from as int, col as int));
        assert(mm as int == minutes_val(body.subrange(0, col - from)));
    }
    let ghost ss_abs = s@.subrange(col + 1, to as int);
    proof {
        assert(body.subrange(col - from + 1, body.len() as int) =~= ss_abs);
    }
    let ss: u64 = seconds_ms_in(s, col + 1, to);
    let wide: u128 = mm as u128 * 60000 + ss as u128;
    let v: u64 = if wide > 0xFFFFFFFFFFFFFFFF {
        0xFFFFFFFFFFFFFFFF
    } else {
        wide as u64
    };
    Option::Some(v)
}

/// Milliseconds of the seconds field occupying `from .. to` of `s`.
fn seconds_ms_in(s: &str, from: usize, to: usize) -> (r: u64)
    requires
        from <= to,
        to <= s@.len(),
    ensures
        r as int == seconds_ms(s@.subrange(from as int, to as int)),
{
    let ghost sub = s@.subrange(from as int, to as int);
    let mut dot: usize = from;
    while dot < to && s.get_char(dot) != '.'
        invariant
            from <= dot <= to,
            to <= s@.len(),
            forall|l: int| from <= l < dot ==> s@[l] != '.',
        decreases to - dot,
    {
        dot += 1;
    }
    proof {
        assert(forall|l: int| 0 <= l < dot - from ==> sub[l] != '.');
        assert(dot - from == sub.len() || sub[dot - from] == '.');
        lemma_find_at(sub, 0, dot - from, '.');
    }
    let (ip_ok, ip_val) = digits_value(s, from, dot);
    proof {
        assert(sub.subrange(0, dot - from) =~= s@.subrange(from as int, dot as int));
    }
    let (fp_ok, frac, fp_len) = if dot < to {
        let (ok, _) = digits_value(s, dot + 1, to);
        let f = frac_value(s, dot + 1, to);
        (ok, f, to - dot - 1)
    } else {
        (true, 0u64, 0usize)
    };
    proof {
        if dot < to {
            assert(sub.subrange(dot - from + 1, sub.len() as int) =~= s@.subrange(
                dot + 1,
                to as int,
            ));
        }
    }
    if !ip_ok || !fp_ok {
        return 0;
    }
    if dot == from && fp_len == 0 {
        return 0;
    }
    let wide: u128 = ip_val as u128 * 1000 + frac as u128;
    if wide > 0xFFFFFFFFFFFFFFFF {
        0xFFFFFFFFFFFFFFFF
    } else {
        wide as u64
    }
}

/// Append the entries of one raw line.
fn push_line_entries(line: &str, out: &mut Vec<LyricLine>)
    ensures
        lyric_models(final(out)@) == lyric_models(old(out)@) + line_models(line@),
{
    let n: usize = line.unicode_len();
    let (lo, hi) = trim_range(line, 0, n);
    proof {
        assert(line@.subrange(0, n as int) =~= line@);
    }
    if lo >= hi {
        proof {
            assert(trim_chars(line@).len() == 0);
            assert(lyric_models(out@) + Seq::<LyricModel>::empty() =~= lyric_models(out@));
        }
        return ;
    }
    let t = line.substring_char(lo, hi);
    let ghost tm = t@;
    proof {
        assert(tm == trim_chars(line@));
    }
    let tn: usize = hi - lo;
    let mut q: usize = 0;
    let mut times: Vec<u64> = Vec::new();
    loop
        invariant
            q <= tn,
            tn == tm.len(),
            tm == t@,
            stamps_times(tm, 0) == times_int(times@) + stamps_times(tm, q as int),
            stamps_end(tm, 0) == stamps_end(tm, q as int),
        ensures
            times_int(times@) == stamps_times(tm, 0),
            q <= tn,
            q as int == stamps_end(tm, 0),
        decreases tn - q,
    {
        if !(q < tn) {
            proof {
                assert(stamps_times(tm, q as int) =~= Seq::<int>::empty());
                assert(times_int(times@) + Seq::<int>::empty() =~= times_int(times@));
                assert(stamps_end(tm, q as int) == q as int);
            }
            break ;
        }
        if t.get_char(q) != '[' {
            proof {
                assert(tm[q as int] != '[');
                assert(stamps_times(tm, q as int) =~= Seq::<int>::empty());
                assert(times_int(times@) + Seq::<int>::empty() =~= times_int(times@));
                assert(stamps_end(tm, q as int) == q as int);
            }
            break ;
        }
        let r = find_char(t, q + 1, tn, ']');
        if r >= tn {
            proof {
                assert(tm[q as int] == '[');
                assert(stamps_times(tm, q as int) =~= Seq::<int>::empty());
                assert(times_int(times@) + Seq::<int>::empty() =~= times_int(times@));
                assert(stamps_end(tm, q as int) == q as int);
            }
            break ;
        }
        let stamp = stamp_value(t, q + 1, r);
        proof {
            let ghost rest = stamps_times(tm, r as int + 1);
            match stamp_ms(tm.subrange(q as int + 1, r as int)) {
                Option::Some(v) => {
                    assert(stamps_times(tm, q as int) == seq![v] + rest);
                },
                Option::None => {
                    assert(stamps_times(tm, q as int) == rest);
                },
            }
        }
        match stamp {
            Option::Some(v) => {
                let ghost prev = times@;
                times.push(v);
                proof {
                    assert(times_int(times@) =~= times_int(prev).push(v as int));
                    assert(times_int(prev) + (seq![v as int] + stamps_times(tm, r as int + 1))
                        =~= times_int(prev).push(v as int) + stamps_times(tm, r as int + 1));
                }
            },
            Option::None => {},
        }
        q = r + 1;
    }
    let rest = t.substring_char(q, tn);
    let (tlo, thi) = trim_range(rest, 0, tn - q);
    proof {
        assert(rest@.subrange(0, (tn - q) as int) =~= rest@);
        assert(rest@ == tm.subrange(q as int, tn as int));
    }
    let text: String = if tlo < thi {
        rest.substring_char(tlo, thi).to_owned()
    } else {
        String::new()
    };
    proof {
        assert(text@ == trim_chars(tm.subrange(stamps_end(tm, 0), tm.len() as int)));
    }
    let ghost base = out@;
    let mut j: usize = 0;
    while j < times.len()
        invariant
            j <= times@.len(),
            text@ == trim_chars(tm.subrange(stamps_end(tm, 0), tm.len() as int)),
            lyric_models(out@) =~= lyric_models(base) + times_int(times@).subrange(
                0,
                j as int,
            ).map_values(|ti: int| LyricModel { time: ti, text: text@ }),
        decreases times@.len() - j,
    {
        let ghost prev = out@;
        out.push(LyricLine { time_ms: times[j], text: text.clone() });
        proof {
            assert(lyric_models(out@) =~= lyric_models(prev).push(
                LyricModel { time: times@[j as int] as int, text: text@ },
            ));
            assert(times_int(times@).subrange(0, j as int + 1) =~= times_int(times@).subrange(
                0,
                j as int,
            ).push(times@[j as int] as int));
            assert(times_int(times@).subrange(0, j as int).push(
                times@[j as int] as int,
            ).map_values(|ti: int| LyricModel { time: ti, text: text@ }) =~= times_int(
                times@,
            ).subrange(0, j as int).map_values(
                |ti: int| LyricModel { time: ti, text: text@ },
            ).push(LyricModel { time: times@[j as int] as int, text: text@ }));
        }
        j += 1;
    }
    proof {
        assert(times_int(times@).subrange(0, times@.len() as int) =~= times_int(times@));
        assert(line_models(line@) == stamps_times(tm, 0).map_values(
            |ti: int| LyricModel { time: ti, text: text@ },
        ));
    }
}

/// The integer views of collected stamp values.
pub open spec fn times_int(s: Seq<u64>) -> Seq<int> {
    s.map_values(|v: u64| v as int)
}

/// Parse lyric-subtitle text into timestamped lines, sorted by timestamp
/// ascending; a line carrying several timestamps contributes one entry per
/// timestamp, all sharing its text.
pub fn parse_lrc(content: &str) -> (r: Vec<LyricLine>)
    ensures
        lyric_models(r@) == spec_parse_lrc(content@),
        lyrics_sorted(lyric_models(r@)),
{
    let n: usize = content.unicode_len();
    let mut raw: Vec<LyricLine> = Vec::new();
    let mut pos: usize = 0;
    proof {
        assert(lyric_models(raw@) + lrc_entries_from(content@, 0) =~= lrc_entries_from(
            content@,
            0,
        ));
    }
    while pos < n
        invariant
            pos <= n,
            n == content@.len(),
            lrc_entries_from(content@, 0) == lyric_models(raw@) + lrc_entries_from(
                content@,
                pos as int,
            ),
        decreases n - pos,
    {
        let eol = find_char(content, pos, n, '\n');
        let line = content.substring_char(pos, eol);
        let ghost before = raw@;
        push_line_entries(line, &mut raw);
        let next: usize = if eol < n {
            eol + 1
        } else {
            n
        };
        proof {
            assert(lrc_entries_from(content@, pos as int) == line_models(
                content@.subrange(pos as int, eol as int),
            ) + lrc_entries_from(content@, next as int));
            assert(lyric_models(before) + (line_models(content@.subrange(pos as int, eol as int))
                + lrc_entries_from(content@, next as int)) =~= (lyric_models(before)
                + line_models(content@.subrange(pos as int, eol as int))) + lrc_entries_from(
                content@,
                next as int,
            ));
        }
        pos = next;
    }
    proof {
        assert(lrc_entries_from(content@, pos as int) =~= Seq::<LyricModel>::empty());
        assert(lyric_models(raw@) + Seq::<LyricModel>::empty() =~= lyric_models(raw@));
    }
    let r = sort_lyric_lines(raw);
    proof {
        lemma_sort_lyrics_sorted(lrc_entries_from(content@, 0));
    }
    r
}

/// Insert one entry into an already sorted vector, behind its equals.
fn insert_lyric_sorted(out: &mut Vec<LyricLine>, e: LyricLine)
    ensures
        lyric_models(final(out)@) == insert_lyric(lyric_models(old(out)@), e.model()),
{
    let mut j: usize = out.len();
    while j > 0 && out[j - 1].time_ms > e.time_ms
        invariant
            j <= out@.len(),
            forall|k: int| j <= k < out@.len() ==> (#[trigger] out@[k]).time_ms > e.time_ms,
        decreases j,
    {
        j -= 1;
    }
    proof {
        let ghost m = lyric_models(out@);
        assert(forall|k: int| j <= k < m.len() ==> (#[trigger] m[k]).time > e.model().time);
        assert(j > 0 ==> m[j as int - 1].time <= e.model().time);
        lemma_insert_lyric_at(m, e.model(), j as int);
    }
    let ghost prev = out@;
    out.insert(j, e);
    proof {
        assert(lyric_models(out@) =~= lyric_models(prev).subrange(0, j as int) + seq![e.model()]
            + lyric_models(prev).subrange(j as int, prev.len() as int)) by {
            assert(out@ == prev.insert(j as int, e));
        }
    }
}

/// Stable sort of the entries by time, ascending.
fn sort_lyric_lines(v: Vec<LyricLine>) -> (r: Vec<LyricLine>)
    ensures
        lyric_models(r@) == sort_lyrics_model(lyric_models(v@)),
{
    let mut out: Vec<LyricLine> = Vec::new();
    let mut i: usize = 0;
    while i < v.len()
        invariant
            i <= v@.len(),
            lyric_models(out@) == sort_lyrics_model(lyric_models(v@).subrange(0, i as int)),
        decreases v@.len() - i,
    {
        let ghost m = lyric_models(v@);
        let item = LyricLine { time_ms: v[i].time_ms, text: v[i].text.clone() };
        proof {
            assert(item.model() == m[i as int]);
        }
        insert_lyric_sorted(&mut out, item);
        proof {
            assert(m.subrange(0, i as int + 1).drop_last() =~= m.subrange(0, i as int));
            assert(m.subrange(0, i as int + 1).last() == m[i as int]);
        }
        i += 1;
    }
    proof {
        assert(lyric_models(v@).subrange(0, v@.len() as int) =~= lyric_models(v@));
    }
    out
}

} // verus!
