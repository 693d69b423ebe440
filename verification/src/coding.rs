//! Segment analysis: classifying input bytes into encoding modes, parsing
//! them into maximal same-mode runs, and merging runs to shorten the encoded
//! stream for a target version.
use vstd::prelude::*;

use crate::bits::{is_alphanumeric_char, is_kanji_pair, is_numeric_char};
use crate::types::{Mode, Version, RMQR_LENGTH_BITS_COUNT};

verus! {

/// One run of input bytes assigned to a single encoding mode. Segments
/// partition `[0, len)` contiguously and in order.
#[derive(Debug, Clone, Copy, PartialEq, Eq, Structural)]
pub struct Segment {
    /// The encoding mode of the run.
    pub mode: Mode,
    /// The index of the first byte of the run.
    pub begin: usize,
    /// The index one past the last byte of the run.
    pub end: usize,
}

/// The number of raw characters of a segment: double-byte pairs count as
/// one character in Kanji mode.
pub open spec fn spec_seg_units(seg: Segment) -> int {
    if seg.mode is Kanji {
        (seg.end - seg.begin) / 2
    } else {
        seg.end - seg.begin
    }
}

/// The number of bits the segment occupies in the stream of `version`:
/// mode indicator, count field, payload.
#[verifier::opaque]
pub open spec fn spec_seg_encoded_len(seg: Segment, version: Version) -> int {
    version.spec_mode_bits_count() + seg.mode.spec_length_bits_count(version)
        + seg.mode.spec_data_bits_count(spec_seg_units(seg))
}

/// The total number of stream bits of a list of segments in `version`.
pub open spec fn spec_total_encoded_len(segs: Seq<Segment>, version: Version) -> int
    decreases segs.len(),
{
    if segs.len() == 0 {
        0
    } else {
        spec_seg_encoded_len(segs[0], version) + spec_total_encoded_len(segs.skip(1), version)
    }
}

/// The segments cover `[0, n)` contiguously, in order, and none is empty.
pub open spec fn wf_partition(segs: Seq<Segment>, n: int) -> bool {
    &&& forall|i: int|
        0 <= i < segs.len() ==> (#[trigger] segs[i]).begin < segs[i].end <= n
    &&& forall|i: int|
        #![trigger segs[i], segs[i + 1]]
        0 <= i < segs.len() - 1 ==> segs[i].end == segs[i + 1].begin
    &&& (segs.len() > 0 ==> segs[0].begin == 0 && segs[segs.len() - 1].end == n)
    &&& (segs.len() == 0 ==> n == 0)
}

/// The bytes under the segment belong to the alphabet of its mode (Numeric
/// and Kanji only; the weaker modes check their own alphabets when pushed).
#[verifier::opaque]
pub open spec fn seg_chars_ok(data: Seq<u8>, seg: Segment) -> bool {
    match seg.mode {
        Mode::Numeric => forall|p: int|
            seg.begin <= p < seg.end ==> is_numeric_char(#[trigger] data[p]),
        Mode::Alphanumeric => forall|p: int|
            seg.begin <= p < seg.end ==> is_alphanumeric_char(#[trigger] data[p]),
        Mode::Kanji => (seg.end - seg.begin) % 2 == 0 && (forall|t: int|
            0 <= t < (seg.end - seg.begin) / 2 ==> is_kanji_pair(
                #[trigger] data[seg.begin + 2 * t],
                data[seg.begin + 2 * t + 1],
            )),
        Mode::Byte => true,
    }
}

/// Every segment of the list satisfies `seg_chars_ok`.
pub open spec fn segs_chars_ok(data: Seq<u8>, segs: Seq<Segment>) -> bool {
    forall|i: int| 0 <= i < segs.len() ==> seg_chars_ok(data, #[trigger] segs[i])
}

/// The smallest mode that can carry the single byte `b`.
pub open spec fn classify_byte(b: u8) -> Mode {
    if is_numeric_char(b) {
        Mode::Numeric
    } else if is_alphanumeric_char(b) {
        Mode::Alphanumeric
    } else {
        Mode::Byte
    }
}

/// Whether a Kanji double-byte pair starts at position `i`.
pub open spec fn kanji_at(data: Seq<u8>, i: int) -> bool {
    i + 1 < data.len() && is_kanji_pair(data[i], data[i + 1])
}

/// The mode of the character starting at position `i`.
pub open spec fn spec_mode_at(data: Seq<u8>, i: int) -> Mode {
    if kanji_at(data, i) {
        Mode::Kanji
    } else {
        classify_byte(data[i])
    }
}

/// The length in bytes of the character starting at position `i`.
pub open spec fn spec_step_at(data: Seq<u8>, i: int) -> int {
    if kanji_at(data, i) {
        2
    } else {
        1
    }
}

/// The raw segments of `data[i..]` when the run `cur` is still open.
pub open spec fn spec_parse_from(data: Seq<u8>, i: int, cur: Segment) -> Seq<Segment>
    decreases data.len() - i,
{
    if i < 0 || i >= data.len() {
        seq![cur]
    } else {
        let m = spec_mode_at(data, i);
        let k = spec_step_at(data, i);
        if m == cur.mode {
            spec_parse_from(
                data,
                i + k,
                Segment { mode: cur.mode, begin: cur.begin, end: (i + k) as usize },
            )
        } else {
            seq![cur] + spec_parse_from(
                data,
                i + k,
                Segment { mode: m, begin: i as usize, end: (i + k) as usize },
            )
        }
    }
}

/// The raw segment stream of `data`: one segment per maximal run of
/// same-mode characters, classifying each character to its smallest mode.
pub open spec fn spec_parse(data: Seq<u8>) -> Seq<Segment> {
    if data.len() == 0 {
        Seq::<Segment>::empty()
    } else {
        spec_parse_from(
            data,
            spec_step_at(data, 0),
            Segment { mode: spec_mode_at(data, 0), begin: 0, end: spec_step_at(data, 0) as usize },
        )
    }
}

/// The merge of two adjacent segments: their joined mode over the union of
/// their ranges.
pub open spec fn spec_merged(a: Segment, b: Segment) -> Segment {
    Segment { mode: a.mode.spec_join(b.mode), begin: a.begin, end: b.end }
}

/// The greedy merge of `segs[i..]` into the open segment `cur`: an adjacent
/// segment is absorbed whenever the merged segment is no longer than the
/// two separate ones.
pub open spec fn spec_optimize_from(
    segs: Seq<Segment>,
    i: int,
    cur: Segment,
    version: Version,
) -> Seq<Segment>
    decreases segs.len() - i,
{
    if i < 0 || i >= segs.len() {
        seq![cur]
    } else {
        let m = spec_merged(cur, segs[i]);
        if spec_seg_encoded_len(m, version) <= spec_seg_encoded_len(cur, version)
            + spec_seg_encoded_len(segs[i], version) {
            spec_optimize_from(segs, i + 1, m, version)
        } else {
            seq![cur] + spec_optimize_from(segs, i + 1, segs[i], version)
        }
    }
}

/// The optimized segmentation for `version`.
pub open spec fn spec_optimize(segs: Seq<Segment>, version: Version) -> Seq<Segment> {
    if segs.len() == 0 {
        Seq::<Segment>::empty()
    } else {
        spec_optimize_from(segs, 1, segs[0], version)
    }
}

/// Whether the byte is a decimal digit, executably.
fn is_digit(b: u8) -> (r: bool)
    ensures
        r == is_numeric_char(b),
{
    48 <= b && b <= 57
}

/// Whether the byte belongs to the alphanumeric alphabet, executably.
fn is_alnum(b: u8) -> (r: bool)
    ensures
        r == is_alphanumeric_char(b),
{
    (48 <= b && b <= 57) || (65 <= b && b <= 90) || b == 32 || b == 36 || b == 37 || b == 42 || b
        == 43 || b == 45 || b == 46 || b == 47 || b == 58
}

/// Whether the two bytes form a Kanji-mode double-byte pair, executably.
fn is_kanji(b0: u8, b1: u8) -> (r: bool)
    ensures
        r == is_kanji_pair(b0, b1),
{
    let cp: u32 = (b0 as u32) * 256 + (b1 as u32);
    (0x8140 <= cp && cp <= 0x9FFC || 0xE040 <= cp && cp <= 0xEBBF) && 0x40 <= b1 && b1 <= 0xFC
        && b1 != 0x7F
}

/// The mode and byte length of the character starting at position `i`.
fn classify_at(data: &[u8], i: usize) -> (r: (Mode, usize))
    requires
        0 <= i < data@.len(),
    ensures
        r.0 == spec_mode_at(data@, i as int),
        r.1 == spec_step_at(data@, i as int),
{
    if i < data.len() - 1 && is_kanji(data[i], data[i + 1]) {
        (Mode::Kanji, 2)
    } else {
        let b = data[i];
        if is_digit(b) {
            (Mode::Numeric, 1)
        } else if is_alnum(b) {
            (Mode::Alphanumeric, 1)
        } else {
            (Mode::Byte, 1)
        }
    }
}

/// Splits the input into its raw segment stream: one segment per maximal
/// run of characters of the same smallest mode.
pub fn parse(data: &[u8]) -> (r: Vec<Segment>)
    ensures
        r@ == spec_parse(data@),
        wf_partition(r@, data@.len() as int),
        segs_chars_ok(data@, r@),
{
    let mut result: Vec<Segment> = Vec::new();
    if data.len() == 0 {
        proof {
            assert(result@ =~= spec_parse(data@));
        }
        return result;
    }
    let (m0, k0) = classify_at(data, 0);
    let mut cur = Segment { mode: m0, begin: 0, end: k0 };
    let mut i: usize = k0;
    while i < data.len()
        invariant
            1 <= i <= data@.len() <= usize::MAX,
            data@.len() >= 1,
            spec_parse(data@) == result@ + spec_parse_from(data@, i as int, cur),
        decreases data@.len() - i,
    {
        let (m, k) = classify_at(data, i);
        let ghost prev = cur;
        let ghost prev_result = result@;
        if m == cur.mode {
            cur = Segment { mode: cur.mode, begin: cur.begin, end: i + k };
            proof {
                assert(result@ + spec_parse_from(data@, i + k, cur) =~= prev_result
                    + spec_parse_from(data@, i as int, prev));
            }
        } else {
            result.push(cur);
            proof {
                assert(result@ + spec_parse_from(data@, i + k, cur) =~= prev_result + (seq![prev]
                    + spec_parse_from(data@, i + k, cur)));
            }
            cur = Segment { mode: m, begin: i, end: i + k };
        }
        i = i + k;
    }
    result.push(cur);
    proof {
        assert(spec_parse_from(data@, i as int, cur) =~= seq![cur]);
        assert(result@ =~= spec_parse(data@));
        lemma_parse_props(data@);
        assert(wf_partition(result@, data@.len() as int));
    }
    result
}

/// The shape of one segment list entry within a contiguous run of segments.
pub open spec fn segs_run_ok(data: Seq<u8>, r: Seq<Segment>) -> bool {
    &&& r.len() >= 1
    &&& forall|t: int| 0 <= t < r.len() ==> (#[trigger] r[t]).begin < r[t].end <= data.len()
    &&& forall|t: int|
        #![trigger r[t], r[t + 1]]
        0 <= t < r.len() - 1 ==> r[t].end == r[t + 1].begin
    &&& r[r.len() - 1].end == data.len()
    &&& forall|t: int| 0 <= t < r.len() ==> seg_chars_ok(data, #[trigger] r[t])
}

/// Prefixing a contiguous run with one adjacent segment keeps it a
/// contiguous run.
#[verifier::rlimit(100)]
proof fn lemma_run_cons(data: Seq<u8>, cur: Segment, r2: Seq<Segment>)
    requires
        segs_run_ok(data, r2),
        cur.begin < cur.end,
        cur.end == r2[0].begin,
        cur.end <= data.len(),
        seg_chars_ok(data, cur),
    ensures
        segs_run_ok(data, seq![cur] + r2),
        (seq![cur] + r2)[0] == cur,
{
    let r = seq![cur] + r2;
    assert forall|t: int| 0 <= t < r.len() implies (#[trigger] r[t]).begin < r[t].end
        <= data.len() by {
        if t > 0 {
            assert(r[t] == r2[t - 1]);
        }
    }
    assert forall|t: int|
        #![trigger r[t], r[t + 1]]
        0 <= t < r.len() - 1 implies r[t].end == r[t + 1].begin by {
        if t > 0 {
            let u = t - 1;
            assert(r[t] == r2[u] && r[t + 1] == r2[u + 1]);
            assert(r2[u].end == r2[u + 1].begin);
        } else {
            assert(r[1] == r2[0]);
        }
    }
    assert forall|t: int| 0 <= t < r.len() implies seg_chars_ok(data, #[trigger] r[t]) by {
        if t > 0 {
            assert(r[t] == r2[t - 1]);
            assert(seg_chars_ok(data, r2[t - 1]));
        }
    }
    assert(r[r.len() - 1] == r2[r2.len() - 1]);
}

/// The raw parse of a non-empty input is a contiguous run of non-empty
/// segments that covers the whole input, each over its own alphabet.
#[verifier::rlimit(100)]
proof fn lemma_parse_from_props(data: Seq<u8>, i: int, cur: Segment)
    requires
        data.len() <= usize::MAX,
        cur.begin < cur.end,
        cur.end == i,
        i <= data.len(),
        seg_chars_ok(data, cur),
    ensures
        segs_run_ok(data, spec_parse_from(data, i, cur)),
        spec_parse_from(data, i, cur)[0].begin == cur.begin,
    decreases data.len() - i,
{
    let r = spec_parse_from(data, i, cur);
    if i >= data.len() {
        assert(r =~= seq![cur]);
    } else {
        let m = spec_mode_at(data, i);
        let k = spec_step_at(data, i);
        assert(classify_byte(data[i]) != Mode::Kanji);
        assert(m is Kanji ==> kanji_at(data, i) && k == 2);
        if m == cur.mode {
            let cur2 = Segment { mode: cur.mode, begin: cur.begin, end: (i + k) as usize };
            lemma_run_extend(data, cur, cur2, i, k, m);
            lemma_parse_from_props(data, i + k, cur2);
        } else {
            let cur2 = Segment { mode: m, begin: i as usize, end: (i + k) as usize };
            lemma_run_new(data, cur2, i, k, m);
            lemma_parse_from_props(data, i + k, cur2);
            lemma_run_cons(data, cur, spec_parse_from(data, i + k, cur2));
        }
    }
}

/// The raw parse of the whole input is a partition into non-empty
/// same-alphabet runs.
#[verifier::rlimit(100)]
pub proof fn lemma_parse_props(data: Seq<u8>)
    requires
        data.len() <= usize::MAX,
    ensures
        wf_partition(spec_parse(data), data.len() as int),
        segs_chars_ok(data, spec_parse(data)),
{
    if data.len() == 0 {
    } else {
        let m0 = spec_mode_at(data, 0);
        let k0 = spec_step_at(data, 0);
        assert(classify_byte(data[0]) != Mode::Kanji);
        assert(m0 is Kanji ==> kanji_at(data, 0) && k0 == 2);
        let seg0 = Segment { mode: m0, begin: 0, end: k0 as usize };
        lemma_run_new(data, seg0, 0, k0, m0);
        lemma_parse_from_props(data, k0, seg0);
        let r = spec_parse(data);
        assert(r == spec_parse_from(data, k0, seg0));
        assert(r.len() >= 1 && r[0].begin == 0);
        assert(forall|t: int| 0 <= t < r.len() ==> (#[trigger] r[t]).begin < r[t].end
            <= data.len());
        assert(forall|t: int|
            #![trigger r[t], r[t + 1]]
            0 <= t < r.len() - 1 ==> r[t].end == r[t + 1].begin);
        assert(r[r.len() - 1].end == data.len());
        assert(wf_partition(r, data.len() as int));
        assert(forall|t: int| 0 <= t < r.len() ==> seg_chars_ok(data, #[trigger] r[t]));
    }
}

/// Extending a run by the character at its end keeps its alphabet fact.
proof fn lemma_run_extend(data: Seq<u8>, prev: Segment, cur: Segment, i: int, k: int, m: Mode)
    requires
        data.len() <= usize::MAX,
        0 <= i < data.len(),
        i + k <= data.len(),
        m == spec_mode_at(data, i),
        k == spec_step_at(data, i),
        m == prev.mode,
        prev.begin < prev.end,
        prev.end == i,
        seg_chars_ok(data, prev),
        cur == (Segment { mode: prev.mode, begin: prev.begin, end: (i + k) as usize }),
    ensures
        seg_chars_ok(data, cur),
{
    reveal(seg_chars_ok);
    assert(classify_byte(data[i]) != Mode::Kanji);
    match m {
        Mode::Kanji => {
            assert(kanji_at(data, i) && k == 2);
            assert((prev.end - prev.begin) % 2 == 0);
            assert((cur.end - cur.begin) % 2 == 0);
            assert forall|t: int| 0 <= t < (cur.end - cur.begin) / 2 implies is_kanji_pair(
                #[trigger] data[cur.begin + 2 * t],
                data[cur.begin + 2 * t + 1],
            ) by {
                if t < (prev.end - prev.begin) / 2 {
                } else {
                    assert(t == (prev.end - prev.begin) / 2);
                    assert(cur.begin + 2 * t == i);
                    assert(kanji_at(data, i));
                }
            }
        },
        _ => {},
    }
}

/// A fresh one-character run satisfies its own alphabet fact.
proof fn lemma_run_new(data: Seq<u8>, cur: Segment, i: int, k: int, m: Mode)
    requires
        data.len() <= usize::MAX,
        0 <= i < data.len(),
        i + k <= data.len(),
        m == spec_mode_at(data, i),
        k == spec_step_at(data, i),
        cur == (Segment { mode: m, begin: i as usize, end: (i + k) as usize }),
    ensures
        seg_chars_ok(data, cur),
{
    reveal(seg_chars_ok);
    assert(classify_byte(data[i]) != Mode::Kanji);
    match m {
        Mode::Kanji => {
            assert(kanji_at(data, i) && k == 2);
            assert(cur.end - cur.begin == 2);
            assert forall|t: int| 0 <= t < (cur.end - cur.begin) / 2 implies is_kanji_pair(
                #[trigger] data[cur.begin + 2 * t],
                data[cur.begin + 2 * t + 1],
            ) by {
                assert(t == 0);
                assert(cur.begin + 2 * t == i);
            }
        },
        _ => {},
    }
}

/// A digit belongs to the alphanumeric alphabet as well.
proof fn lemma_numeric_in_alphanumeric(b: u8)
    ensures
        is_numeric_char(b) ==> is_alphanumeric_char(b),
{
}

/// Merging two adjacent segments into their joined mode keeps the bytes
/// inside the merged range on the joined mode's alphabet.
#[verifier::rlimit(100)]
proof fn lemma_merge_chars(data: Seq<u8>, a: Segment, b: Segment)
    requires
        a.begin < a.end,
        b.begin < b.end,
        a.end == b.begin,
        seg_chars_ok(data, a),
        seg_chars_ok(data, b),
    ensures
        seg_chars_ok(data, spec_merged(a, b)),
{
    reveal(seg_chars_ok);
    let m = spec_merged(a, b);
    match m.mode {
        Mode::Byte => {},
        Mode::Numeric => {
            assert(a.mode is Numeric && b.mode is Numeric);
        },
        Mode::Alphanumeric => {
            assert((a.mode is Numeric || a.mode is Alphanumeric) && (b.mode is Numeric
                || b.mode is Alphanumeric));
            assert forall|p: int| m.begin <= p < m.end implies is_alphanumeric_char(
                #[trigger] data[p],
            ) by {
                lemma_numeric_in_alphanumeric(data[p]);
            }
        },
        Mode::Kanji => {
            assert(a.mode is Kanji && b.mode is Kanji);
            let half = (a.end - a.begin) / 2;
            assert forall|t: int| 0 <= t < (m.end - m.begin) / 2 implies is_kanji_pair(
                #[trigger] data[m.begin + 2 * t],
                data[m.begin + 2 * t + 1],
            ) by {
                if t < half {
                    assert(is_kanji_pair(data[a.begin + 2 * t], data[a.begin + 2 * t + 1]));
                } else {
                    let u = t - half;
                    assert(m.begin + 2 * t == b.begin + 2 * u);
                    assert(is_kanji_pair(data[b.begin + 2 * u], data[b.begin + 2 * u + 1]));
                }
            }
        },
    }
}

/// Every segment of a non-empty range encodes to at least zero and at most
/// `20 + 8` bits per covered byte.
pub proof fn lemma_seg_len_bound(seg: Segment, version: Version)
    requires
        seg.begin < seg.end,
        version is Micro ==> version.is_valid(),
    ensures
        0 <= spec_seg_encoded_len(seg, version) <= 20 + 8 * (seg.end - seg.begin),
        spec_seg_encoded_len(seg, version) <= 28 * (seg.end - seg.begin),
{
    reveal(spec_seg_encoded_len);
    let u = spec_seg_units(seg);
    let n = seg.end - seg.begin;
    assert(forall|k: int, j: int|
        0 <= k < 32 && 0 <= j < 4 ==> #[trigger] RMQR_LENGTH_BITS_COUNT[k][j] <= 9);
    assert(0 <= version.spec_mode_bits_count() <= 4);
    assert(0 <= seg.mode.spec_length_bits_count(version) <= 16);
    match seg.mode {
        Mode::Numeric => {
            assert(u == n);
            assert((n * 10 + 2) / 3 <= 8 * n) by (nonlinear_arith)
                requires
                    n >= 1,
            ;
            assert((n * 10 + 2) / 3 >= 0) by (nonlinear_arith)
                requires
                    n >= 1,
            ;
        },
        Mode::Alphanumeric => {
            assert(u == n);
            assert((n * 11 + 1) / 2 <= 8 * n) by (nonlinear_arith)
                requires
                    n >= 1,
            ;
            assert((n * 11 + 1) / 2 >= 0) by (nonlinear_arith)
                requires
                    n >= 1,
            ;
        },
        Mode::Byte => {
            assert(u == n);
        },
        Mode::Kanji => {
            assert(u == n / 2);
            assert(13 * (n / 2) <= 8 * n) by (nonlinear_arith)
                requires
                    n >= 1,
            ;
        },
    }
}

/// The number of bits one segment occupies in the stream of `version`.
pub fn seg_encoded_len(seg: &Segment, version: Version) -> (r: usize)
    requires
        seg.begin < seg.end,
        version is Micro ==> version.is_valid(),
        28 * (seg.end - seg.begin) + 20 <= usize::MAX,
    ensures
        r == spec_seg_encoded_len(*seg, version),
{
    proof {
        reveal(spec_seg_encoded_len);
        lemma_seg_len_bound(*seg, version);
        assert(forall|k: int, j: int|
            0 <= k < 32 && 0 <= j < 4 ==> #[trigger] RMQR_LENGTH_BITS_COUNT[k][j] <= 9);
    }
    let units = if matches!(seg.mode, Mode::Kanji) {
        (seg.end - seg.begin) / 2
    } else {
        seg.end - seg.begin
    };
    version.mode_bits_count() + seg.mode.length_bits_count(version) + seg.mode.data_bits_count(
        units,
    )
}

/// The total number of stream bits of a contiguous list of segments.
#[verifier::rlimit(100)]
pub fn total_encoded_len(segments: &[Segment], version: Version) -> (r: usize)
    requires
        version is Micro ==> version.is_valid(),
        exists|n: int|
            #[trigger] wf_partition(segments@, n) && 48 * n + 1024 <= usize::MAX,
    ensures
        r == spec_total_encoded_len(segments@, version),
{
    let ghost n = choose|n: int| #[trigger] wf_partition(segments@, n) && 48 * n + 1024
        <= usize::MAX;
    let mut sum: usize = 0;
    let mut i: usize = 0;
    proof {
        assert(segments@.skip(0) =~= segments@);
    }
    while i < segments.len()
        invariant
            version is Micro ==> version.is_valid(),
            wf_partition(segments@, n),
            48 * n + 1024 <= usize::MAX,
            i <= segments@.len(),
            spec_total_encoded_len(segments@, version) == sum + spec_total_encoded_len(
                segments@.skip(i as int),
                version,
            ),
            sum <= 28 * (if i == 0 {
                0
            } else {
                segments@[i - 1].end as int
            }),
        decreases segments@.len() - i,
    {
        let seg = segments[i];
        proof {
            lemma_seg_len_bound(seg, version);
            assert(seg.end <= n);
            if i > 0 {
                let u = i - 1 as int;
                assert(segments@[u].end == segments@[u + 1].begin);
                assert(segments@[i - 1].end == seg.begin);
            }
            assert(segments@.skip(i as int).skip(1) =~= segments@.skip(i + 1));
            assert(spec_total_encoded_len(segments@.skip(i as int), version)
                == spec_seg_encoded_len(seg, version) + spec_total_encoded_len(
                segments@.skip(i + 1),
                version,
            ));
        }
        let len = seg_encoded_len(&seg, version);
        proof {
            assert(sum + len <= 28 * seg.begin + 28 * (seg.end - seg.begin));
        }
        sum = sum + len;
        i = i + 1;
    }
    proof {
        assert(segments@.skip(segments@.len() as int) =~= Seq::<Segment>::empty());
    }
    sum
}

/// The greedy merge pass yields a partition of the same range and keeps
/// every byte on its segment's alphabet.
#[verifier::rlimit(100)]
proof fn lemma_optimize_from_shape(
    data: Seq<u8>,
    segs: Seq<Segment>,
    i: int,
    cur: Segment,
    version: Version,
)
    requires
        data.len() <= usize::MAX,
        1 <= i <= segs.len(),
        cur.begin < cur.end,
        cur.end == (if i < segs.len() {
            segs[i].begin as int
        } else {
            data.len() as int
        }),
        seg_chars_ok(data, cur),
        forall|t: int| i <= t < segs.len() ==> (#[trigger] segs[t]).begin < segs[t].end
            <= data.len(),
        forall|t: int|
            #![trigger segs[t], segs[t + 1]]
            i <= t < segs.len() - 1 ==> segs[t].end == segs[t + 1].begin,
        segs.len() > i ==> segs[segs.len() - 1].end == data.len(),
        forall|t: int| i <= t < segs.len() ==> seg_chars_ok(data, #[trigger] segs[t]),
    ensures
        segs_run_ok(data, spec_optimize_from(segs, i, cur, version)),
        spec_optimize_from(segs, i, cur, version)[0].begin == cur.begin,
    decreases segs.len() - i,
{
    let r = spec_optimize_from(segs, i, cur, version);
    if i >= segs.len() {
        assert(r =~= seq![cur]);
    } else {
        if i + 1 < segs.len() {
            assert(segs[i].end == segs[i + 1].begin);
        }
        let m = spec_merged(cur, segs[i]);
        if spec_seg_encoded_len(m, version) <= spec_seg_encoded_len(cur, version)
            + spec_seg_encoded_len(segs[i], version) {
            lemma_merge_chars(data, cur, segs[i]);
            lemma_optimize_from_shape(data, segs, i + 1, m, version);
        } else {
            lemma_optimize_from_shape(data, segs, i + 1, segs[i], version);
            lemma_run_cons(data, cur, spec_optimize_from(segs, i + 1, segs[i], version));
        }
    }
}

/// The greedy merge pass never lengthens the stream.
#[verifier::rlimit(100)]
proof fn lemma_optimize_from_total(segs: Seq<Segment>, i: int, cur: Segment, version: Version)
    requires
        1 <= i <= segs.len(),
    ensures
        spec_total_encoded_len(spec_optimize_from(segs, i, cur, version), version)
            <= spec_seg_encoded_len(cur, version) + spec_total_encoded_len(
            segs.skip(i),
            version,
        ),
    decreases segs.len() - i,
{
    let r = spec_optimize_from(segs, i, cur, version);
    if i >= segs.len() {
        assert(segs.skip(i) =~= Seq::<Segment>::empty());
        assert(r == seq![cur]);
        assert(r.len() == 1 && r[0] == cur);
        assert(r.skip(1) =~= Seq::<Segment>::empty());
        assert(spec_total_encoded_len(r.skip(1), version) == 0);
        assert(spec_total_encoded_len(r, version) == spec_seg_encoded_len(cur, version));
    } else {
        assert(segs.skip(i)[0] == segs[i]);
        assert(segs.skip(i).skip(1) =~= segs.skip(i + 1));
        assert(spec_total_encoded_len(segs.skip(i), version) == spec_seg_encoded_len(
            segs[i],
            version,
        ) + spec_total_encoded_len(segs.skip(i + 1), version));
        let m = spec_merged(cur, segs[i]);
        if spec_seg_encoded_len(m, version) <= spec_seg_encoded_len(cur, version)
            + spec_seg_encoded_len(segs[i], version) {
            lemma_optimize_from_total(segs, i + 1, m, version);
        } else {
            let r2 = spec_optimize_from(segs, i + 1, segs[i], version);
            lemma_optimize_from_total(segs, i + 1, segs[i], version);
            assert(r == seq![cur] + r2);
            assert(r[0] == cur);
            assert(r.skip(1) =~= r2);
            assert(spec_total_encoded_len(r, version) == spec_seg_encoded_len(cur, version)
                + spec_total_encoded_len(r2, version));
        }
    }
}

/// A contiguous run that starts at zero is a partition of the input.
#[verifier::rlimit(100)]
proof fn lemma_run_to_partition(data: Seq<u8>, r: Seq<Segment>)
    requires
        segs_run_ok(data, r),
        r[0].begin == 0,
    ensures
        wf_partition(r, data.len() as int),
        segs_chars_ok(data, r),
{
}

/// The optimized segmentation of a parsed partition is a partition of the
/// same input that keeps every byte on its segment's alphabet.
#[verifier::rlimit(100)]
pub proof fn lemma_optimize_props(data: Seq<u8>, segs: Seq<Segment>, version: Version)
    requires
        data.len() <= usize::MAX,
        wf_partition(segs, data.len() as int),
        segs_chars_ok(data, segs),
    ensures
        wf_partition(spec_optimize(segs, version), data.len() as int),
        segs_chars_ok(data, spec_optimize(segs, version)),
{
    if segs.len() == 0 {
        assert(spec_optimize(segs, version) =~= Seq::<Segment>::empty());
    } else {
        let rf = spec_optimize_from(segs, 1, segs[0], version);
        lemma_optimize_from_shape(data, segs, 1, segs[0], version);
        lemma_run_to_partition(data, rf);
        assert(spec_optimize(segs, version) == rf);
    }
}

/// The optimized segmentation never encodes to more bits than the list it
/// was made from.
#[verifier::rlimit(100)]
pub proof fn lemma_optimize_total(segs: Seq<Segment>, version: Version)
    ensures
        spec_total_encoded_len(spec_optimize(segs, version), version) <= spec_total_encoded_len(
            segs,
            version,
        ),
{
    let r = spec_optimize(segs, version);
    if segs.len() == 0 {
        assert(r =~= Seq::<Segment>::empty());
    } else {
        lemma_optimize_from_total(segs, 1, segs[0], version);
        assert(segs.skip(0) =~= segs);
        assert(spec_total_encoded_len(segs, version) == spec_seg_encoded_len(segs[0], version)
            + spec_total_encoded_len(segs.skip(1), version));
    }
}

/// Merges and reshapes the raw segments to shorten the total encoded stream
/// for the target version: an adjacent pair is fused into its joined mode
/// whenever that does not lengthen the stream.
#[verifier::rlimit(100)]
pub fn optimize(segments: &[Segment], version: Version) -> (r: Vec<Segment>)
    requires
        version is Micro ==> version.is_valid(),
        exists|n: int|
            #[trigger] wf_partition(segments@, n) && 48 * n + 1024 <= usize::MAX,
    ensures
        r@ == spec_optimize(segments@, version),
{
    let ghost n = choose|n: int| #[trigger] wf_partition(segments@, n) && 48 * n + 1024
        <= usize::MAX;
    let mut result: Vec<Segment> = Vec::new();
    if segments.len() == 0 {
        proof {
            assert(result@ =~= spec_optimize(segments@, version));
        }
        return result;
    }
    let mut cur = segments[0];
    let mut i: usize = 1;
    proof {
        if segments@.len() > 1 {
            assert(segments@[0int].end == segments@[0int + 1].begin);
        }
    }
    while i < segments.len()
        invariant
            version is Micro ==> version.is_valid(),
            wf_partition(segments@, n),
            48 * n + 1024 <= usize::MAX,
            1 <= i <= segments@.len(),
            cur.begin < cur.end <= n,
            i < segments@.len() ==> cur.end == segments@[i as int].begin,
            spec_optimize(segments@, version) == result@ + spec_optimize_from(
                segments@,
                i as int,
                cur,
                version,
            ),
        decreases segments@.len() - i,
    {
        let next = segments[i];
        proof {
            if i + 1 < segments@.len() {
                let u = i as int;
                assert(segments@[u].end == segments@[u + 1].begin);
            }
        }
        let ghost prev = cur;
        let ghost prev_result = result@;
        let merged = Segment { mode: cur.mode.max(next.mode), begin: cur.begin, end: next.end };
        proof {
            lemma_seg_len_bound(merged, version);
            lemma_seg_len_bound(cur, version);
            lemma_seg_len_bound(next, version);
        }
        let merged_len = seg_encoded_len(&merged, version);
        let cur_len = seg_encoded_len(&cur, version);
        let next_len = seg_encoded_len(&next, version);
        if merged_len <= cur_len + next_len {
            cur = merged;
            proof {
                assert(result@ + spec_optimize_from(segments@, i + 1, cur, version) =~= prev_result
                    + spec_optimize_from(segments@, i as int, prev, version));
            }
        } else {
            result.push(cur);
            proof {
                assert(result@ + spec_optimize_from(segments@, i + 1, next, version) =~= prev_result
                    + (seq![prev] + spec_optimize_from(segments@, i + 1, next, version)));
            }
            cur = next;
        }
        i = i + 1;
    }
    result.push(cur);
    proof {
        assert(spec_optimize_from(segments@, i as int, cur, version) =~= seq![cur]);
        assert(result@ =~= spec_optimize(segments@, version));
    }
    result
}

} // verus!
