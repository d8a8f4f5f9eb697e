//! Building an index from a raw corpus.
use vstd::prelude::*;

use crate::datfile::{
    DatFile, DatHeader, RecordSpan, STRFILE_VERSION, STR_ORDERED, STR_RANDOM, spans_view,
};
use crate::rng::FortuneRng;
use vstd::string::StringSliceAdditionalSpecFns;
use crate::lines::{
    LF, closed_pieces, content_end, delimiter_line_at, delimiter_lines, is_line_start, kept,
    lemma_delimiter_lines_step, lemma_filter_push, lemma_line_end, lemma_line_end_prefix,
    line_end, next_line_start, piece_start, pieces, scan_line, segment,
};

verus! {

/// The delimiter byte used unless another is given: `%`.
pub const DEFAULT_DELIMITER: u8 = 0x25;

/// How to build an index.
#[derive(Debug, Clone, Copy)]
pub struct BuildOptions {
    pub delimiter: u8,
    pub randomize_offsets: bool,
    pub order_offsets: bool,
    pub allow_empty: bool,
}

impl Default for BuildOptions {
    /// `%` as the delimiter, offsets in corpus order, empty records dropped.
    fn default() -> (r: BuildOptions)
        ensures
            r == (BuildOptions {
                delimiter: DEFAULT_DELIMITER,
                randomize_offsets: false,
                order_offsets: false,
                allow_empty: false,
            }),
    {
        BuildOptions {
            delimiter: DEFAULT_DELIMITER,
            randomize_offsets: false,
            order_offsets: false,
            allow_empty: false,
        }
    }
}

/// Figures about the records of a built index.
#[derive(Debug, Clone, Copy, PartialEq, Eq)]
pub struct BuildStats {
    pub record_count: usize,
    pub shortest_record: usize,
    pub longest_record: usize,
}

/// Why an index could not be built.
#[derive(Debug, Clone, Copy, PartialEq, Eq)]
pub enum BuildError {
    /// Sorting and shuffling the offsets were both asked for.
    ConflictingOrder,
    /// The corpus holds no record.
    NoRecords,
    /// A record starts past what a 32-bit offset can hold.
    OffsetTooLarge { start: usize },
    /// More records than a 32-bit count can hold.
    TooManyRecords,
}

/// The record spans of a buffer.
pub open spec fn segment_spans(b: Seq<u8>, delim: u8, allow_empty: bool) -> Seq<RecordSpan> {
    segment(b, delim, allow_empty).map_values(
        |p: (int, int)| RecordSpan { start: p.0 as usize, end: p.1 as usize },
    )
}

/// The byte length of a span, `0` when it is inverted.
pub open spec fn span_len(s: RecordSpan) -> int {
    if s.end >= s.start {
        s.end - s.start
    } else {
        0
    }
}

/// The bytes that a span covers.
pub open spec fn span_text(b: Seq<u8>, s: RecordSpan) -> Seq<u8> {
    b.subrange(s.start as int, s.end as int)
}

/// Whether a span lies within a buffer of `len` bytes.
pub open spec fn span_within(s: RecordSpan, len: int) -> bool {
    s.start <= s.end <= len
}

/// Whether `a` sorts strictly before `b` byte by byte, a proper prefix first.
pub open spec fn lex_lt(a: Seq<u8>, b: Seq<u8>) -> bool
    decreases a.len(),
{
    if a.len() == 0 {
        b.len() > 0
    } else if b.len() == 0 {
        false
    } else if a[0] != b[0] {
        a[0] < b[0]
    } else {
        lex_lt(a.drop_first(), b.drop_first())
    }
}

/// Whether the spans come in order of the bytes they cover.
pub open spec fn sorted_by_text(b: Seq<u8>, spans: Seq<RecordSpan>) -> bool {
    forall|i: int, j: int|
        0 <= i < j < spans.len() ==> !lex_lt(
            #[trigger] span_text(b, spans[j]),
            #[trigger] span_text(b, spans[i]),
        )
}

/// Whether the spans start at strictly increasing offsets.
pub open spec fn starts_increasing(spans: Seq<RecordSpan>) -> bool {
    forall|a: int, b: int| 0 <= a < b < spans.len() ==> (#[trigger] spans[a]).start < (#[trigger] spans[b]).start
}

/// Whether spans that cover equal text come in corpus order.
pub open spec fn stable_by_text(b: Seq<u8>, spans: Seq<RecordSpan>) -> bool {
    forall|i: int, j: int|
        0 <= i < j < spans.len() && #[trigger] span_text(b, spans[i]) == #[trigger] span_text(
            b,
            spans[j],
        ) ==> spans[i].start < spans[j].start
}

/// The start offsets of spans, as 32-bit offsets.
pub open spec fn starts_u32(spans: Seq<RecordSpan>) -> Seq<u32> {
    spans.map_values(|s: RecordSpan| s.start as u32)
}

/// `s` with the elements at `i` and `j` exchanged.
pub open spec fn swap_at<A>(s: Seq<A>, i: int, j: int) -> Seq<A> {
    s.update(i, s[j]).update(j, s[i])
}

/// The first `m` steps of a Fisher-Yates shuffle of `s` that draws from the fixed source
/// `rng`: step `k` exchanges the element at `len - 1 - k` with one drawn below it.
pub open spec fn shuffled<A>(s: Seq<A>, rng: FortuneRng, m: int) -> Seq<A>
    decreases m,
{
    if m <= 0 {
        s
    } else {
        let t = shuffled(s, rng, m - 1);
        let i = s.len() - m;
        swap_at(t, i, (rng.upcoming(m - 1) as int) % (i + 1))
    }
}

/// How many draws a shuffle of `n` elements takes.
pub open spec fn shuffle_draws(n: int) -> int {
    if n < 2 {
        0
    } else {
        n - 1
    }
}

/// The byte order never puts a sequence before itself.
pub proof fn lemma_lex_irreflexive(a: Seq<u8>)
    ensures
        !lex_lt(a, a),
    decreases a.len(),
{
    if a.len() > 0 {
        lemma_lex_irreflexive(a.drop_first());
    }
}

/// Any two sequences are equal or one sorts before the other.
pub proof fn lemma_lex_total(a: Seq<u8>, b: Seq<u8>)
    ensures
        lex_lt(a, b) || lex_lt(b, a) || a == b,
    decreases a.len(),
{
    if a.len() == 0 && b.len() == 0 {
        assert(a =~= b);
    } else if a.len() > 0 && b.len() > 0 && a[0] == b[0] {
        lemma_lex_total(a.drop_first(), b.drop_first());
        if a.drop_first() == b.drop_first() {
            assert(a =~= b) by {
                assert(a.len() == a.drop_first().len() + 1);
                assert(b.len() == b.drop_first().len() + 1);
                assert forall|i: int| 0 <= i < a.len() implies a[i] == b[i] by {
                    if i > 0 {
                        assert(a[i] == a.drop_first()[i - 1]);
                        assert(b[i] == b.drop_first()[i - 1]);
                    }
                }
            }
        }
    }
}

/// The byte order is transitive.
pub proof fn lemma_lex_transitive(a: Seq<u8>, b: Seq<u8>, c: Seq<u8>)
    requires
        lex_lt(a, b),
        lex_lt(b, c),
    ensures
        lex_lt(a, c),
    decreases a.len(),
{
    if a.len() > 0 && b.len() > 0 && c.len() > 0 && a[0] == b[0] && b[0] == c[0] {
        lemma_lex_transitive(a.drop_first(), b.drop_first(), c.drop_first());
    }
}

/// The spans as pairs, turned back into spans, are the spans the segmentation gives.
proof fn lemma_segment_spans(b: Seq<u8>, delim: u8, allow_empty: bool, r: Seq<RecordSpan>)
    requires
        spans_view(r) == segment(b, delim, allow_empty),
    ensures
        r == segment_spans(b, delim, allow_empty),
{
    assert(r =~= segment_spans(b, delim, allow_empty)) by {
        assert forall|k: int| 0 <= k < r.len() implies r[k] == segment_spans(
            b,
            delim,
            allow_empty,
        )[k] by {
            assert(spans_view(r)[k] == (r[k].start as int, r[k].end as int));
        }
    }
}

/// Whether the text of span `a` sorts strictly before the text of span `b`.
fn text_lt(input: &[u8], a: RecordSpan, b: RecordSpan) -> (r: bool)
    requires
        span_within(a, input@.len() as int),
        span_within(b, input@.len() as int),
    ensures
        r == lex_lt(span_text(input@, a), span_text(input@, b)),
{
    let ghost ta = span_text(input@, a);
    let ghost tb = span_text(input@, b);
    let la = a.end - a.start;
    let lb = b.end - b.start;
    assert(ta.skip(0) =~= ta && tb.skip(0) =~= tb);
    let mut i: usize = 0;
    while i < la && i < lb
        invariant
            la == ta.len(),
            lb == tb.len(),
            span_within(a, input@.len() as int),
            span_within(b, input@.len() as int),
            ta == span_text(input@, a),
            tb == span_text(input@, b),
            i <= la,
            i <= lb,
            lex_lt(ta, tb) == lex_lt(ta.skip(i as int), tb.skip(i as int)),
        decreases la - i,
    {
        let x = input[a.start + i];
        let y = input[b.start + i];
        assert(ta.skip(i as int)[0] == x && tb.skip(i as int)[0] == y);
        if x != y {
            return x < y;
        }
        assert(ta.skip(i as int).drop_first() =~= ta.skip(i + 1));
        assert(tb.skip(i as int).drop_first() =~= tb.skip(i + 1));
        i = i + 1;
    }
    i < lb
}

/// Sorts spans by the text they cover; spans with equal text keep their order.
fn sort_spans_by_text(input: &[u8], spans: &Vec<RecordSpan>) -> (r: Vec<RecordSpan>)
    requires
        forall|k: int| 0 <= k < spans@.len() ==> span_within(#[trigger] spans@[k], input@.len() as int),
        starts_increasing(spans@),
    ensures
        r@.to_multiset() == spans@.to_multiset(),
        sorted_by_text(input@, r@),
        stable_by_text(input@, r@),
        forall|k: int| 0 <= k < r@.len() ==> spans@.contains(#[trigger] r@[k]),
{
    broadcast use vstd::seq_lib::group_to_multiset_ensures;
    let mut out: Vec<RecordSpan> = Vec::new();
    assert(spans@.subrange(0, 0) =~= out@);
    let mut i: usize = 0;
    while i < spans.len()
        invariant
            i <= spans@.len(),
            forall|k: int| 0 <= k < spans@.len() ==> span_within(#[trigger] spans@[k], input@.len() as int),
            starts_increasing(spans@),
            out@.to_multiset() == spans@.subrange(0, i as int).to_multiset(),
            sorted_by_text(input@, out@),
            stable_by_text(input@, out@),
            forall|k: int| 0 <= k < out@.len() ==> spans@.contains(#[trigger] out@[k]),
            forall|k: int| 0 <= k < out@.len() ==> spans@.subrange(0, i as int).contains(#[trigger] out@[k]),
        decreases spans@.len() - i,
    {
        let s = spans[i];
        let ghost ts = span_text(input@, s);
        let mut lo: usize = 0;
        let mut hi: usize = out.len();
        while lo < hi
            invariant
                lo <= hi <= out@.len(),
                ts == span_text(input@, s),
                span_within(s, input@.len() as int),
                forall|k: int| 0 <= k < spans@.len() ==> span_within(#[trigger] spans@[k], input@.len() as int),
                forall|k: int| 0 <= k < out@.len() ==> spans@.contains(#[trigger] out@[k]),
                sorted_by_text(input@, out@),
                forall|q: int| 0 <= q < lo ==> !lex_lt(ts, #[trigger] span_text(input@, out@[q])),
                forall|q: int| hi <= q < out@.len() ==> lex_lt(ts, #[trigger] span_text(input@, out@[q])),
            decreases hi - lo,
        {
            let mid = lo + (hi - lo) / 2;
            assert(spans@.contains(out@[mid as int]));
            let ghost tm = span_text(input@, out@[mid as int]);
            if text_lt(input, s, out[mid]) {
                assert forall|q: int| mid <= q < out@.len() implies lex_lt(ts, #[trigger] span_text(input@, out@[q])) by {
                    if q > mid {
                        let tq = span_text(input@, out@[q]);
                        assert(!lex_lt(tq, tm));
                        lemma_lex_total(tm, tq);
                        if lex_lt(tm, tq) {
                            lemma_lex_transitive(ts, tm, tq);
                        }
                    }
                }
                hi = mid;
            } else {
                assert forall|q: int| 0 <= q <= mid implies !lex_lt(ts, #[trigger] span_text(input@, out@[q])) by {
                    if q < mid {
                        let tq = span_text(input@, out@[q]);
                        assert(!lex_lt(tm, tq));
                        lemma_lex_total(tq, tm);
                        if lex_lt(ts, tq) && lex_lt(tq, tm) {
                            lemma_lex_transitive(ts, tq, tm);
                        }
                    }
                }
                lo = mid + 1;
            }
        }
        let p = lo;
        let ghost old_out = out@;
        proof {
            if p < old_out.len() {
                assert(spans@.contains(old_out[p as int]));
            }
        }
        out.insert(p, s);
        proof {
            let ts = span_text(input@, s);
            assert forall|a: int, c: int| 0 <= a < c < out@.len() implies !lex_lt(
                #[trigger] span_text(input@, out@[c]),
                #[trigger] span_text(input@, out@[a]),
            ) by {
                if c == p {
                    assert(out@[a] == old_out[a]);
                } else if a == p {
                    let oc = old_out[c - 1];
                    assert(out@[c] == oc);
                    let tp = span_text(input@, old_out[p as int]);
                    if c - 1 > p {
                        assert(!lex_lt(span_text(input@, oc), tp));
                    }
                    if lex_lt(span_text(input@, oc), ts) {
                        lemma_lex_transitive(span_text(input@, oc), ts, tp);
                        if c - 1 == p {
                            lemma_lex_irreflexive(tp);
                        }
                    }
                } else {
                    let a0 = if a < p { a } else { a - 1 };
                    let c0 = if c < p { c } else { c - 1 };
                    assert(out@[a] == old_out[a0]);
                    assert(out@[c] == old_out[c0]);
                }
            }
            assert forall|a: int, c: int|
                0 <= a < c < out@.len() && #[trigger] span_text(input@, out@[a]) == #[trigger] span_text(
                    input@,
                    out@[c],
                ) implies out@[a].start < out@[c].start by {
                if c == p {
                    assert(out@[a] == old_out[a]);
                    assert(spans@.subrange(0, i as int).contains(old_out[a]));
                    let j = choose|j: int| 0 <= j < i && spans@.subrange(0, i as int)[j] == old_out[a];
                    assert(spans@[j] == old_out[a]);
                } else if a == p {
                    let oc = old_out[c - 1];
                    assert(out@[c] == oc);
                    let tp = span_text(input@, old_out[p as int]);
                    if c - 1 > p {
                        assert(!lex_lt(span_text(input@, oc), tp));
                        if lex_lt(ts, tp) && span_text(input@, oc) == ts {
                            lemma_lex_irreflexive(ts);
                        }
                        if !lex_lt(span_text(input@, oc), tp) && span_text(input@, oc) == ts {
                            assert(lex_lt(ts, tp));
                        }
                    } else {
                        lemma_lex_irreflexive(ts);
                    }
                } else {
                    let a0 = if a < p { a } else { a - 1 };
                    let c0 = if c < p { c } else { c - 1 };
                    assert(out@[a] == old_out[a0]);
                    assert(out@[c] == old_out[c0]);
                }
            }
            assert forall|k: int| 0 <= k < out@.len() implies spans@.subrange(0, i + 1).contains(#[trigger] out@[k]) by {
                if k == p {
                    assert(spans@.subrange(0, i + 1)[i as int] == s);
                } else {
                    let k0 = if k < p { k } else { k - 1 };
                    assert(out@[k] == old_out[k0]);
                    assert(spans@.subrange(0, i as int).contains(old_out[k0]));
                    let j = choose|j: int| 0 <= j < i && spans@.subrange(0, i as int)[j] == old_out[k0];
                    assert(spans@.subrange(0, i + 1)[j] == old_out[k0]);
                }
            }
            assert forall|k: int| 0 <= k < out@.len() implies spans@.contains(#[trigger] out@[k]) by {
                if k == p {
                    assert(out@[k] == spans@[i as int]);
                } else if k < p {
                    assert(out@[k] == old_out[k]);
                } else {
                    assert(out@[k] == old_out[k - 1]);
                }
            }
            assert(spans@.subrange(0, i + 1) =~= spans@.subrange(0, i as int).push(s));
            vstd::seq_lib::to_multiset_build(spans@.subrange(0, i as int), s);
            vstd::seq_lib::to_multiset_insert(old_out, p as int, s);
        }
        i = i + 1;
    }
    assert(spans@.subrange(0, i as int) =~= spans@);
    out
}


/// Splits a corpus into record spans. Each delimiter line closes the record that began at the
/// previous boundary, and the bytes after the last delimiter line form the last record. Empty
/// records are dropped unless `allow_empty` is set.
pub fn parse_record_spans(input: &[u8], delimiter: u8, allow_empty: bool) -> (r: Vec<RecordSpan>)
    ensures
        spans_view(r@) == segment(input@, delimiter, allow_empty),
        forall|k: int| 0 <= k < r@.len() ==> span_within(#[trigger] r@[k], input@.len() as int),
        starts_increasing(r@),
{
    let ghost b = input@;
    let mut out: Vec<RecordSpan> = Vec::new();
    let mut cursor: usize = 0;
    let mut start: usize = 0;

    while cursor < input.len()
        invariant
            b == input@,
            cursor <= b.len(),
            start <= cursor,
            forall|k: int| 0 <= k < out@.len() ==> span_within(#[trigger] out@[k], b.len() as int),
            starts_increasing(out@),
            forall|k: int| 0 <= k < out@.len() ==> (#[trigger] out@[k]).start < start,
            cursor < b.len() ==> is_line_start(b, cursor as int),
            start == piece_start(
                b,
                delimiter_lines(b, delimiter, cursor as int),
                delimiter_lines(b, delimiter, cursor as int).len() as int,
            ),
            spans_view(out@) == closed_pieces(
                b,
                delimiter_lines(b, delimiter, cursor as int),
                delimiter_lines(b, delimiter, cursor as int).len() as int,
            ).filter(kept(allow_empty)),
        decreases b.len() - cursor,
    {
        let ghost ds = delimiter_lines(b, delimiter, cursor as int);
        let ghost before = out@;
        let (is_delim, next) = scan_line(input, cursor, delimiter);
        proof {
            lemma_delimiter_lines_step(b, delimiter, cursor as int);
            lemma_line_end(b, cursor as int);
        }
        if is_delim {
            let ghost ds2 = ds.push(cursor as int);
            let ghost piece = (start as int, cursor as int);
            proof {
                assert(closed_pieces(b, ds2, ds2.len() as int) =~= closed_pieces(
                    b,
                    ds,
                    ds.len() as int,
                ).push(piece));
                lemma_filter_push(closed_pieces(b, ds, ds.len() as int), piece, kept(allow_empty));
            }
            if allow_empty || cursor > start {
                out.push(RecordSpan { start, end: cursor });
                assert(spans_view(out@) =~= spans_view(before).push(piece));
            }
            start = next;
        }
        cursor = next;
    }

    let ghost ds = delimiter_lines(b, delimiter, b.len() as int);
    let ghost before = out@;
    let ghost last = (start as int, b.len() as int);
    proof {
        lemma_filter_push(closed_pieces(b, ds, ds.len() as int), last, kept(allow_empty));
    }
    if allow_empty || start < input.len() {
        out.push(RecordSpan { start, end: input.len() });
        assert(spans_view(out@) =~= spans_view(before).push(last));
    }
    out
}

/// Shuffles spans in place, Fisher-Yates style: from the last position down to the second,
/// each position trades with one drawn at or below it.
fn fisher_yates_shuffle(items: &mut Vec<RecordSpan>, rng: &mut FortuneRng)
    requires
        old(rng).wf(),
    ensures
        final(rng).wf(),
        final(items)@.len() == old(items)@.len(),
        final(items)@.to_multiset() == old(items)@.to_multiset(),
        forall|k: int| 0 <= k < final(items)@.len() ==> old(items)@.contains(#[trigger] final(items)@[k]),
        old(rng).advanced(final(rng), shuffle_draws(old(items)@.len() as int)),
        old(rng).is_fixed() ==> final(items)@ == shuffled(
            old(items)@,
            *old(rng),
            shuffle_draws(old(items)@.len() as int),
        ),
{
    broadcast use vstd::seq_lib::group_to_multiset_ensures;
    broadcast use vstd::multiset::group_multiset_axioms;

    let ghost orig = items@;
    let ghost rng0 = *rng;
    proof {
        rng0.lemma_advanced_zero();
    }
    let n = items.len();
    if n < 2 {
        return;
    }
    let mut i: usize = n - 1;
    while i > 0
        invariant
            n == orig.len(),
            n >= 2,
            items@.len() == n,
            i < n,
            rng0.wf(),
            rng.wf(),
            rng0.advanced(rng, n - 1 - i),
            rng0.is_fixed() ==> items@ == shuffled(orig, rng0, n - 1 - i),
            items@.to_multiset() == orig.to_multiset(),
            forall|k: int| 0 <= k < items@.len() ==> orig.contains(#[trigger] items@[k]),
        decreases i,
    {
        let ghost m = n - 1 - i;
        let ghost before = *rng;
        let ghost s0 = items@;
        let j = rng.next_index(i + 1);
        proof {
            rng0.lemma_upcoming_after(&before, m, 0);
            rng0.lemma_advanced_trans(&before, rng, m, 1);
        }
        let a = items[i];
        let b = items[j];
        items.set(i, b);
        items.set(j, a);
        proof {
            let s1 = s0.update(i as int, b);
            assert(items@ =~= s1.update(j as int, a));
            assert(items@ =~= swap_at(s0, i as int, j as int));
            assert(s1[j as int] == b);
            vstd::seq_lib::to_multiset_update(s0, i as int, b);
            vstd::seq_lib::to_multiset_update(s1, j as int, a);
            assert(s0[i as int] == a);
            vstd::seq_lib::to_multiset_contains(s0, a);
            assert(s0.to_multiset().count(a) > 0);
            assert(items@.to_multiset() =~= s0.to_multiset());
            assert forall|k: int| 0 <= k < items@.len() implies orig.contains(#[trigger] items@[k]) by {
                if k == i {
                    assert(items@[k] == s0[j as int]);
                } else if k == j {
                    assert(items@[k] == s0[i as int]);
                } else {
                    assert(items@[k] == s0[k]);
                }
            }
        }
        i = i - 1;
    }
}

/// The byte length of a span, `0` when it is inverted.
fn len_for_span(span: &RecordSpan) -> (r: usize)
    ensures
        r == span_len(*span),
{
    if span.end >= span.start {
        span.end - span.start
    } else {
        0
    }
}

/// Whether `start` is the first span start of `segs` that a 32-bit offset cannot hold.
pub open spec fn first_oversized(segs: Seq<RecordSpan>, start: usize) -> bool {
    exists|k: int|
        0 <= k < segs.len() && #[trigger] segs[k].start == start && start > u32::MAX && forall|
            q: int,
        |
            0 <= q < k ==> segs[q].start <= u32::MAX
}

/// Whether `x` is the length of the shortest span.
pub open spec fn shortest_of(segs: Seq<RecordSpan>, x: int) -> bool {
    &&& exists|k: int| 0 <= k < segs.len() && span_len(#[trigger] segs[k]) == x
    &&& forall|k: int| 0 <= k < segs.len() ==> x <= span_len(#[trigger] segs[k])
}

/// Whether `x` is the length of the longest span.
pub open spec fn longest_of(segs: Seq<RecordSpan>, x: int) -> bool {
    &&& exists|k: int| 0 <= k < segs.len() && span_len(#[trigger] segs[k]) == x
    &&& forall|k: int| 0 <= k < segs.len() ==> span_len(#[trigger] segs[k]) <= x
}

/// Whether `ord` is the order of the record spans `segs` that the options ask for: sorted by
/// text (equal texts in corpus order), shuffled by draws from `rng` (exactly so for a fixed
/// source), or as they come.
pub open spec fn ordered_as_asked(
    input: Seq<u8>,
    opts: BuildOptions,
    rng: FortuneRng,
    segs: Seq<RecordSpan>,
    ord: Seq<RecordSpan>,
) -> bool {
    if opts.order_offsets {
        &&& ord.to_multiset() == segs.to_multiset()
        &&& sorted_by_text(input, ord)
        &&& stable_by_text(input, ord)
    } else if opts.randomize_offsets {
        &&& ord.to_multiset() == segs.to_multiset()
        &&& rng.is_fixed() ==> ord == shuffled(segs, rng, shuffle_draws(segs.len() as int))
    } else {
        ord == segs
    }
}

/// The flags of an index built with `opts`.
pub open spec fn build_flags(opts: BuildOptions) -> u32 {
    if opts.randomize_offsets {
        STR_RANDOM
    } else if opts.order_offsets {
        STR_ORDERED
    } else {
        0
    }
}

/// Whether `dat` and `stats` are what building `input` with `opts` gives, drawing from `rng`.
pub open spec fn built_from(
    input: Seq<u8>,
    opts: BuildOptions,
    rng: FortuneRng,
    dat: DatFile,
    stats: BuildStats,
) -> bool {
    let segs = segment_spans(input, opts.delimiter, opts.allow_empty);
    &&& stats.record_count == segs.len()
    &&& shortest_of(segs, stats.shortest_record as int)
    &&& longest_of(segs, stats.longest_record as int)
    &&& dat.header == DatHeader {
        version: STRFILE_VERSION,
        numstr: segs.len() as u32,
        longlen: (stats.longest_record as int % 0x1_0000_0000) as u32,
        shortlen: (stats.shortest_record as int % 0x1_0000_0000) as u32,
        flags: build_flags(opts),
        delim: opts.delimiter,
    }
    &&& exists|ord: Seq<RecordSpan>|
        ordered_as_asked(input, opts, rng, segs, ord) && dat.offsets@ == #[trigger] starts_u32(ord)
}

/// The first span start that a 32-bit offset cannot hold, if any.
fn first_oversized_start(spans: &Vec<RecordSpan>) -> (r: Option<usize>)
    ensures
        r matches Some(start) ==> first_oversized(spans@, start),
        r is None ==> forall|q: int| 0 <= q < spans@.len() ==> (#[trigger] spans@[q]).start <= u32::MAX,
{
    let mut k: usize = 0;
    while k < spans.len()
        invariant
            k <= spans@.len(),
            forall|q: int| 0 <= q < k ==> (#[trigger] spans@[q]).start <= u32::MAX,
        decreases spans@.len() - k,
    {
        if spans[k].start > u32::MAX as usize {
            assert(first_oversized(spans@, spans@[k as int].start));
            return Some(spans[k].start);
        }
        k = k + 1;
    }
    None
}

/// The lengths of the shortest and the longest span.
fn length_range(spans: &Vec<RecordSpan>) -> (r: (usize, usize))
    requires
        spans@.len() > 0,
    ensures
        shortest_of(spans@, r.0 as int),
        longest_of(spans@, r.1 as int),
{
    let mut shortest = len_for_span(&spans[0]);
    let mut longest = shortest;
    assert(spans@.subrange(0, 1)[0] == spans@[0]);
    let mut k: usize = 1;
    while k < spans.len()
        invariant
            1 <= k <= spans@.len(),
            shortest_of(spans@.subrange(0, k as int), shortest as int),
            longest_of(spans@.subrange(0, k as int), longest as int),
        decreases spans@.len() - k,
    {
        let len = len_for_span(&spans[k]);
        let ghost prev = spans@.subrange(0, k as int);
        let ghost next = spans@.subrange(0, k + 1);
        assert(next =~= prev.push(spans@[k as int]));
        if len < shortest {
            shortest = len;
        }
        if len > longest {
            longest = len;
        }
        proof {
            assert forall|q: int| 0 <= q < next.len() implies shortest <= span_len(#[trigger] next[q])
                && span_len(next[q]) <= longest by {
                if q < k {
                    assert(next[q] == prev[q]);
                }
            }
            if shortest == len {
                assert(span_len(next[k as int]) == shortest);
            } else {
                let w = choose|w: int| 0 <= w < prev.len() && span_len(#[trigger] prev[w]) == shortest;
                assert(next[w] == prev[w]);
            }
            if longest == len {
                assert(span_len(next[k as int]) == longest);
            } else {
                let w = choose|w: int| 0 <= w < prev.len() && span_len(#[trigger] prev[w]) == longest;
                assert(next[w] == prev[w]);
            }
        }
        k = k + 1;
    }
    assert(spans@.subrange(0, k as int) =~= spans@);
    (shortest, longest)
}

/// Puts the record spans in the order the options ask for.
fn order_spans(input: &[u8], spans: Vec<RecordSpan>, opts: BuildOptions, rng: &mut FortuneRng) -> (r:
    Vec<RecordSpan>)
    requires
        old(rng).wf(),
        !(opts.order_offsets && opts.randomize_offsets),
        forall|k: int| 0 <= k < spans@.len() ==> span_within(#[trigger] spans@[k], input@.len() as int),
        starts_increasing(spans@),
    ensures
        final(rng).wf(),
        ordered_as_asked(input@, opts, *old(rng), spans@, r@),
        forall|q: int| 0 <= q < r@.len() ==> spans@.contains(#[trigger] r@[q]),
        opts.randomize_offsets ==> old(rng).advanced(final(rng), shuffle_draws(spans@.len() as int)),
        !opts.randomize_offsets ==> *final(rng) == *old(rng),
{
    if opts.order_offsets {
        sort_spans_by_text(input, &spans)
    } else if opts.randomize_offsets {
        let mut shuffled_spans = spans;
        fisher_yates_shuffle(&mut shuffled_spans, rng);
        shuffled_spans
    } else {
        let ghost s = spans@;
        assert forall|q: int| 0 <= q < s.len() implies s.contains(#[trigger] s[q]) by {}
        spans
    }
}

/// Builds the index of a corpus: one offset per record, in corpus order, sorted by record
/// text, or shuffled with draws from `rng`.
pub fn build_dat_from_text(input: &[u8], opts: BuildOptions, rng: &mut FortuneRng) -> (r: Result<
    (DatFile, BuildStats),
    BuildError,
>)
    requires
        old(rng).wf(),
    ensures
        final(rng).wf(),
        opts.order_offsets && opts.randomize_offsets ==> r == Err::<(DatFile, BuildStats), BuildError>(
            BuildError::ConflictingOrder,
        ),
        !(opts.order_offsets && opts.randomize_offsets) ==> {
            let segs = segment_spans(input@, opts.delimiter, opts.allow_empty);
            if segs.len() == 0 {
                r == Err::<(DatFile, BuildStats), BuildError>(BuildError::NoRecords)
            } else if segs.len() > u32::MAX {
                r == Err::<(DatFile, BuildStats), BuildError>(BuildError::TooManyRecords)
            } else if exists|k: int| 0 <= k < segs.len() && #[trigger] segs[k].start > u32::MAX {
                r matches Err(BuildError::OffsetTooLarge { start }) && first_oversized(segs, start)
            } else {
                r matches Ok((dat, stats)) && built_from(input@, opts, *old(rng), dat, stats)
            }
        },
        r is Ok && opts.randomize_offsets ==> old(rng).advanced(
            final(rng),
            shuffle_draws(segment_spans(input@, opts.delimiter, opts.allow_empty).len() as int),
        ),
        !(r is Ok && opts.randomize_offsets) ==> *final(rng) == *old(rng),
        !opts.order_offsets && !opts.randomize_offsets ==> (r matches Ok((dat, _)) ==> forall|
            a: int,
            b: int,
        | 0 <= a < b < dat.offsets@.len() ==> dat.offsets@[a] < dat.offsets@[b]),
{
    if opts.order_offsets && opts.randomize_offsets {
        return Err(BuildError::ConflictingOrder);
    }

    let spans = parse_record_spans(input, opts.delimiter, opts.allow_empty);
    let ghost segs = spans@;
    proof {
        lemma_segment_spans(input@, opts.delimiter, opts.allow_empty, spans@);
    }
    if spans.len() == 0 {
        return Err(BuildError::NoRecords);
    }
    if spans.len() > u32::MAX as usize {
        return Err(BuildError::TooManyRecords);
    }
    match first_oversized_start(&spans) {
        Some(start) => {
            return Err(BuildError::OffsetTooLarge { start });
        },
        None => {},
    }
    let (shortest, longest) = length_range(&spans);
    let record_count = spans.len();

    let ordered = order_spans(input, spans, opts, rng);

    let mut offsets: Vec<u32> = Vec::new();
    let mut i: usize = 0;
    while i < ordered.len()
        invariant
            i <= ordered@.len(),
            forall|q: int| 0 <= q < ordered@.len() ==> segs.contains(#[trigger] ordered@[q]),
            forall|q: int| 0 <= q < segs.len() ==> segs[q].start <= u32::MAX,
            offsets@ == starts_u32(ordered@.subrange(0, i as int)),
        decreases ordered@.len() - i,
    {
        assert(segs.contains(ordered@[i as int]));
        offsets.push(ordered[i].start as u32);
        i = i + 1;
        assert(offsets@ =~= starts_u32(ordered@.subrange(0, i as int)));
    }
    assert(ordered@.subrange(0, i as int) =~= ordered@);
    proof {
        if !opts.order_offsets && !opts.randomize_offsets {
            assert forall|a: int, b: int| 0 <= a < b < offsets@.len() implies offsets@[a] < offsets@[b] by {
                assert(ordered@[a].start < ordered@[b].start);
                assert(segs.contains(ordered@[a]) && segs.contains(ordered@[b]));
            }
        }
    }

    let flags = if opts.randomize_offsets {
        STR_RANDOM
    } else if opts.order_offsets {
        STR_ORDERED
    } else {
        0
    };
    let header = DatHeader {
        version: STRFILE_VERSION,
        numstr: record_count as u32,
        longlen: (longest as u64 % 0x1_0000_0000) as u32,
        shortlen: (shortest as u64 % 0x1_0000_0000) as u32,
        flags,
        delim: opts.delimiter,
    };
    let dat = DatFile { header, offsets };
    let stats = BuildStats {
        record_count,
        shortest_record: shortest,
        longest_record: longest,
    };
    Ok((dat, stats))
}

/// The delimiter that a one-byte argument names; `None` unless the argument is exactly one
/// byte long.
pub fn parse_delimiter(value: &str) -> (r: Option<u8>)
    ensures
        value.spec_bytes().len() == 1 ==> r == Some(value.spec_bytes()[0]),
        value.spec_bytes().len() != 1 ==> r is None,
{
    let bytes = value.as_bytes();
    if bytes.len() != 1 {
        return None;
    }
    Some(bytes[0])
}

/// Records joined into a corpus: each record ends with a line feed, and a delimiter line
/// stands between consecutive records.
pub open spec fn join_records(rs: Seq<Seq<u8>>, delim: u8) -> Seq<u8>
    decreases rs.len(),
{
    if rs.len() == 0 {
        Seq::empty()
    } else if rs.len() == 1 {
        rs[0].push(LF)
    } else {
        join_records(rs.drop_last(), delim) + seq![delim, LF] + rs.last().push(LF)
    }
}

/// A non-empty record of printable ASCII text that is not itself a delimiter line.
pub open spec fn plain_record(r: Seq<u8>, delim: u8) -> bool {
    &&& r.len() > 0
    &&& forall|i: int| 0 <= i < r.len() ==> 0x20 <= #[trigger] r[i] <= 0x7e
    &&& r != seq![delim]
}

/// Filtering keeps a sequence whole when every element passes.
proof fn lemma_filter_all<A>(s: Seq<A>, keep: spec_fn(A) -> bool)
    requires
        forall|i: int| 0 <= i < s.len() ==> keep(#[trigger] s[i]),
    ensures
        s.filter(keep) == s,
    decreases s.len(),
{
    if s.len() > 0 {
        let init = s.drop_last();
        assert forall|i: int| 0 <= i < init.len() implies keep(#[trigger] init[i]) by {
            assert(init[i] == s[i]);
        }
        lemma_filter_all(init, keep);
        lemma_filter_push(init, s.last(), keep);
        assert(init.push(s.last()) =~= s);
    }
}

/// The line of a plain record that starts at `c` and ends with the line feed at
/// `c + r.len()` is no delimiter line, and the next line starts after that line feed.
proof fn lemma_record_line(b: Seq<u8>, r: Seq<u8>, c: int, delim: u8)
    requires
        plain_record(r, delim),
        0 <= c,
        c + r.len() < b.len(),
        b.subrange(c, c + r.len()) == r,
        b[c + r.len()] == LF,
    ensures
        line_end(b, c) == c + r.len(),
        !delimiter_line_at(b, delim, c),
        next_line_start(b, c) == c + r.len() + 1,
        forall|p: int| c < p <= c + r.len() ==> !is_line_start(b, p),
{
    lemma_line_end(b, c);
    let e = line_end(b, c);
    let n = r.len() as int;
    assert forall|i: int| c <= i < c + n implies b[i] != LF && b[i] != 13u8 by {
        assert(b[i] == r[i - c]);
    }
    assert(e == c + n);
    if n == 1 && b[c] == delim {
        assert(r =~= seq![delim]) by {
            assert(r[0] == b[c]);
        }
    }
    assert forall|p: int| c < p <= c + n implies !is_line_start(b, p) by {
        assert(b[p - 1] != LF);
    }
}

/// Joined plain records, as far as `rs` goes: the corpus ends with a line feed, and its
/// pieces are one per record, each non-empty, at strictly increasing starts.
proof fn lemma_join_pieces(rs: Seq<Seq<u8>>, delim: u8)
    requires
        rs.len() >= 1,
        forall|k: int| 0 <= k < rs.len() ==> plain_record(#[trigger] rs[k], delim),
        delim != LF,
        delim != 13u8,
    ensures
        join_records(rs, delim).len() > 0,
        join_records(rs, delim).last() == LF,
        pieces(join_records(rs, delim), delim).len() == rs.len(),
        forall|k: int|
            0 <= k < rs.len() ==> (#[trigger] pieces(join_records(rs, delim), delim)[k]).0
                < pieces(join_records(rs, delim), delim)[k].1,
        forall|a: int, b: int|
            0 <= a < b < rs.len() ==> (#[trigger] pieces(join_records(rs, delim), delim)[a]).0
                < (#[trigger] pieces(join_records(rs, delim), delim)[b]).0,
        forall|k: int|
            0 <= k < rs.len() ==> (#[trigger] pieces(join_records(rs, delim), delim)[k]).1
                <= join_records(rs, delim).len(),
    decreases rs.len(),
{
    let t = join_records(rs, delim);
    if rs.len() == 1 {
        let r = rs[0];
        assert(t == r.push(LF));
        assert(t.subrange(0, r.len() as int) =~= r);
        lemma_record_line(t, r, 0, delim);
        lemma_delimiter_lines_step(t, delim, 0);
        assert(delimiter_lines(t, delim, 0) =~= Seq::<int>::empty());
    } else {
        let init = rs.drop_last();
        let r = rs.last();
        assert forall|k: int| 0 <= k < init.len() implies plain_record(#[trigger] init[k], delim) by {
            assert(init[k] == rs[k]);
        }
        lemma_join_pieces(init, delim);
        let t0 = join_records(init, delim);
        let q = t0.len() as int;
        let tail = seq![delim, LF] + r.push(LF);
        assert(t =~= t0 + tail);
        let n = r.len() as int;
        assert(t.len() == q + 3 + n);
        assert(t[q] == delim);
        assert(t[q + 1] == LF);
        assert(t[q + 2 + n] == LF);
        assert(t.subrange(q + 2, q + 2 + n) =~= r);

        // Up to the end of the earlier records, the two corpora have the same delimiter lines
        // and the same line structure.
        assert forall|m: int| 0 <= m <= q implies delimiter_lines(t, delim, m) == delimiter_lines(
            t0,
            delim,
            m,
        ) by {
            lemma_delimiter_lines_prefix(t0, tail, delim, m);
        }
        // The delimiter line between the earlier records and the last one.
        assert(t[q - 1] == LF);
        assert(line_end(t, q + 1) == q + 1);
        assert(line_end(t, q) == q + 1);
        assert(content_end(t, q) == q + 1);
        assert(delimiter_line_at(t, delim, q));
        lemma_delimiter_lines_step(t, delim, q);
        assert(next_line_start(t, q) == q + 2);
        // The last record's line.
        lemma_record_line(t, r, q + 2, delim);
        lemma_delimiter_lines_step(t, delim, q + 2);
        let ds0 = delimiter_lines(t0, delim, q);
        let ds = delimiter_lines(t, delim, t.len() as int);
        assert(ds == ds0.push(q));

        let p0 = pieces(t0, delim);
        let p = pieces(t, delim);
        assert forall|k: int| 0 <= k <= ds0.len() implies piece_start(t, ds, k) == piece_start(
            t0,
            ds0,
            k,
        ) by {
            if k > 0 {
                let x = ds0[k - 1];
                assert(ds[k - 1] == x);
                lemma_delimiter_lines_members(t0, delim, q);
                lemma_line_end_prefix(t0, tail, x);
            }
        }
        assert(closed_pieces(t, ds, ds.len() as int) =~= p0);
        assert(p =~= p0.push((q + 2, t.len() as int)));
        assert forall|k: int| 0 <= k < p0.len() implies (#[trigger] p0[k]).0 < q + 2 by {
            assert(p0[k].0 < p0[k].1 && p0[k].1 <= q);
        }
    }
}

/// Delimiter lines found in a prefix that ends with a line feed start lines of it.
proof fn lemma_delimiter_lines_members(b: Seq<u8>, delim: u8, m: int)
    requires
        0 <= m <= b.len(),
    ensures
        forall|k: int|
            0 <= k < delimiter_lines(b, delim, m).len() ==> 0 <= #[trigger] delimiter_lines(
                b,
                delim,
                m,
            )[k] < m,
    decreases m,
{
    if m > 0 {
        lemma_delimiter_lines_members(b, delim, m - 1);
        let prev = delimiter_lines(b, delim, m - 1);
        let cur = delimiter_lines(b, delim, m);
        assert forall|k: int| 0 <= k < cur.len() implies 0 <= #[trigger] cur[k] < m by {
            if k < prev.len() {
                assert(cur[k] == prev[k]);
            }
        }
    }
}

/// Below the end of a prefix that ends with a line feed, appending bytes changes no
/// delimiter line.
proof fn lemma_delimiter_lines_prefix(b: Seq<u8>, s: Seq<u8>, delim: u8, m: int)
    requires
        b.len() > 0,
        b.last() == LF,
        0 <= m <= b.len(),
    ensures
        delimiter_lines(b + s, delim, m) == delimiter_lines(b, delim, m),
    decreases m,
{
    if m > 0 {
        lemma_delimiter_lines_prefix(b, s, delim, m - 1);
        let p = m - 1;
        lemma_line_end_prefix(b, s, p);
        lemma_line_end(b, p);
        let e = line_end(b, p);
        assert((b + s)[p] == b[p]);
        if p > 0 {
            assert((b + s)[p - 1] == b[p - 1]);
        }
        if e > p {
            assert((b + s)[e - 1] == b[e - 1]);
        }
        assert(content_end(b + s, p) == content_end(b, p));
    }
}

/// Plain records joined by delimiter lines segment back into exactly as many records, at
/// strictly increasing offsets: building their corpus gives one increasing offset per record.
pub proof fn lemma_joined_records_segment(rs: Seq<Seq<u8>>)
    requires
        rs.len() >= 1,
        join_records(rs, DEFAULT_DELIMITER).len() <= usize::MAX,
        forall|k: int| 0 <= k < rs.len() ==> plain_record(#[trigger] rs[k], DEFAULT_DELIMITER),
    ensures
        segment_spans(join_records(rs, DEFAULT_DELIMITER), DEFAULT_DELIMITER, false).len()
            == rs.len(),
        forall|a: int, b: int|
            0 <= a < b < rs.len() ==> (#[trigger] segment_spans(
                join_records(rs, DEFAULT_DELIMITER),
                DEFAULT_DELIMITER,
                false,
            )[a]).start < (#[trigger] segment_spans(
                join_records(rs, DEFAULT_DELIMITER),
                DEFAULT_DELIMITER,
                false,
            )[b]).start,
{
    let d = DEFAULT_DELIMITER;
    let t = join_records(rs, d);
    lemma_join_pieces(rs, d);
    let p = pieces(t, d);
    assert forall|i: int| 0 <= i < p.len() implies kept(false)(#[trigger] p[i]) by {}
    lemma_filter_all(p, kept(false));
    assert(p[0].0 == 0) by {
        assert(piece_start(t, delimiter_lines(t, d, t.len() as int), 0) == 0);
    }
    let spans = segment_spans(t, d, false);
    assert forall|a: int, b: int| 0 <= a < b < rs.len() implies (#[trigger] spans[a]).start
        < (#[trigger] spans[b]).start by {
        if a > 0 {
            assert(p[0].0 < p[a].0);
        }
        assert(spans[a].start == p[a].0 as usize);
        assert(spans[b].start == p[b].0 as usize);
    }
}

} // verus!
