//! Lines of a corpus buffer and the delimiter-line test.
//!
//! A line runs from its first byte up to the next line feed (or the end of the buffer). A
//! delimiter line is one whose content, after stripping one trailing carriage return, is
//! exactly the delimiter byte.
use vstd::prelude::*;

verus! {

/// The line feed byte.
pub const LF: u8 = 10;

/// The carriage return byte.
pub const CR: u8 = 13;

/// Position of the first line feed at or after `from`, or the buffer's length when none
/// follows.
pub open spec fn line_end(b: Seq<u8>, from: int) -> int
    decreases b.len() - from,
{
    if from >= b.len() {
        b.len() as int
    } else if b[from] == LF {
        from
    } else {
        line_end(b, from + 1)
    }
}

/// End of the content of the line that starts at `c`: its line end, less one trailing
/// carriage return.
pub open spec fn content_end(b: Seq<u8>, c: int) -> int {
    let e = line_end(b, c);
    if e > c && b[e - 1] == CR {
        e - 1
    } else {
        e
    }
}

/// Whether a delimiter line starts at `c`.
pub open spec fn delimiter_line_at(b: Seq<u8>, delim: u8, c: int) -> bool {
    &&& 0 <= c < b.len()
    &&& content_end(b, c) == c + 1
    &&& b[c] == delim
}

/// Where the line after the one that starts at `c` begins (the buffer's length after the last
/// line).
pub open spec fn next_line_start(b: Seq<u8>, c: int) -> int {
    let e = line_end(b, c);
    if e < b.len() {
        e + 1
    } else {
        e
    }
}

/// The line end lies between `from` and the buffer's end, no line feed comes before it, and
/// one stands at it unless it is the buffer's end.
pub proof fn lemma_line_end(b: Seq<u8>, from: int)
    requires
        0 <= from <= b.len(),
    ensures
        from <= line_end(b, from) <= b.len(),
        line_end(b, from) < b.len() ==> b[line_end(b, from)] == LF,
        forall|i: int| from <= i < line_end(b, from) ==> b[i] != LF,
    decreases b.len() - from,
{
    if from < b.len() && b[from] != LF {
        lemma_line_end(b, from + 1);
    }
}

/// The line end of a prefix that ends with a line feed is that of the whole buffer.
pub proof fn lemma_line_end_prefix(b: Seq<u8>, s: Seq<u8>, from: int)
    requires
        0 <= from < b.len(),
        b[b.len() - 1] == LF,
    ensures
        line_end(b + s, from) == line_end(b, from),
        line_end(b, from) < b.len(),
    decreases b.len() - from,
{
    assert((b + s)[from] == b[from]);
    if b[from] != LF {
        lemma_line_end_prefix(b, s, from + 1);
    }
}

/// Whether `p` starts a line of the buffer: it is the first position, or a line feed precedes
/// it.
pub open spec fn is_line_start(b: Seq<u8>, p: int) -> bool {
    p == 0 || (0 < p && b[p - 1] == LF)
}

/// The positions below `n` at which a delimiter line starts, in increasing order.
pub open spec fn delimiter_lines(b: Seq<u8>, delim: u8, n: int) -> Seq<int>
    decreases n,
{
    if n <= 0 {
        Seq::empty()
    } else {
        let before = delimiter_lines(b, delim, n - 1);
        if is_line_start(b, n - 1) && delimiter_line_at(b, delim, n - 1) {
            before.push(n - 1)
        } else {
            before
        }
    }
}

/// Where piece `k` begins, given the delimiter lines `ds`: the buffer's start for the first
/// piece, else the line after the delimiter line that closed the previous piece.
pub open spec fn piece_start(b: Seq<u8>, ds: Seq<int>, k: int) -> int {
    if k == 0 {
        0
    } else {
        next_line_start(b, ds[k - 1])
    }
}

/// The first `m` pieces, each closed by its delimiter line, as `(start, end)` pairs.
pub open spec fn closed_pieces(b: Seq<u8>, ds: Seq<int>, m: int) -> Seq<(int, int)> {
    Seq::new(m as nat, |k: int| (piece_start(b, ds, k), ds[k]))
}

/// All pieces of the buffer: one closed by each delimiter line, then the rest of the buffer.
pub open spec fn pieces(b: Seq<u8>, delim: u8) -> Seq<(int, int)> {
    let ds = delimiter_lines(b, delim, b.len() as int);
    closed_pieces(b, ds, ds.len() as int).push((piece_start(b, ds, ds.len() as int), b.len() as int))
}

/// Which pieces are records: all of them, or only the non-empty ones.
pub open spec fn kept(allow_empty: bool) -> spec_fn((int, int)) -> bool {
    |s: (int, int)| allow_empty || s.0 < s.1
}

/// The record spans of the buffer, as `(start, end)` pairs.
pub open spec fn segment(b: Seq<u8>, delim: u8, allow_empty: bool) -> Seq<(int, int)> {
    pieces(b, delim).filter(kept(allow_empty))
}

/// Filtering a sequence with one more element appends it when it passes.
pub proof fn lemma_filter_push<A>(s: Seq<A>, x: A, keep: spec_fn(A) -> bool)
    ensures
        s.push(x).filter(keep) == if keep(x) {
            s.filter(keep).push(x)
        } else {
            s.filter(keep)
        },
{
    reveal(Seq::filter);
    assert(s.push(x).drop_last() =~= s);
}

/// No line starts inside a line, so the delimiter lines below any position up to the next
/// line's start are those below `c + 1`.
proof fn lemma_delimiter_lines_inside(b: Seq<u8>, delim: u8, c: int, m: int)
    requires
        0 <= c < b.len(),
        c + 1 <= m <= next_line_start(b, c),
    ensures
        delimiter_lines(b, delim, m) == delimiter_lines(b, delim, c + 1),
    decreases m - c,
{
    lemma_line_end(b, c);
    if m > c + 1 {
        lemma_delimiter_lines_inside(b, delim, c, m - 1);
        assert(!is_line_start(b, m - 1));
    }
}

/// The delimiter lines below the next line's start are those below `c`, and `c` itself when a
/// delimiter line starts there.
pub proof fn lemma_delimiter_lines_step(b: Seq<u8>, delim: u8, c: int)
    requires
        0 <= c < b.len(),
        is_line_start(b, c),
    ensures
        delimiter_lines(b, delim, next_line_start(b, c)) == if delimiter_line_at(b, delim, c) {
            delimiter_lines(b, delim, c).push(c)
        } else {
            delimiter_lines(b, delim, c)
        },
{
    lemma_line_end(b, c);
    lemma_delimiter_lines_inside(b, delim, c, next_line_start(b, c));
}

/// The first delimiter line at or after `p` among the lines that follow `origin`: positions
/// that are `origin` itself or come right after a line feed.
pub open spec fn first_delimiter_from(b: Seq<u8>, delim: u8, origin: int, p: int) -> Option<int>
    decreases b.len() - p,
{
    if p >= b.len() {
        None
    } else if (p == origin || b[p - 1] == LF) && delimiter_line_at(b, delim, p) {
        Some(p)
    } else {
        first_delimiter_from(b, delim, origin, p + 1)
    }
}

/// Where the record that starts at `start` ends: at the first delimiter line that follows, or
/// at the end of the buffer.
pub open spec fn locate_end(b: Seq<u8>, delim: u8, start: int) -> int {
    match first_delimiter_from(b, delim, start, start) {
        Some(p) => p,
        None => b.len() as int,
    }
}

/// A delimiter line found from `p` on lies between `p` and the end of the buffer.
pub proof fn lemma_first_delimiter_bounds(b: Seq<u8>, delim: u8, origin: int, p: int)
    ensures
        first_delimiter_from(b, delim, origin, p) matches Some(q) ==> p <= q < b.len(),
    decreases b.len() - p,
{
    if p < b.len() && !((p == origin || b[p - 1] == LF) && delimiter_line_at(b, delim, p)) {
        lemma_first_delimiter_bounds(b, delim, origin, p + 1);
    }
}

/// Inside the line that starts at `c` no other line starts, so the search goes on at the
/// next line unchanged.
proof fn lemma_first_delimiter_inside(b: Seq<u8>, delim: u8, origin: int, c: int, m: int)
    requires
        0 <= origin <= c < b.len(),
        c + 1 <= m <= next_line_start(b, c),
    ensures
        first_delimiter_from(b, delim, origin, c + 1) == first_delimiter_from(b, delim, origin, m),
    decreases m - c,
{
    lemma_line_end(b, c);
    if m > c + 1 {
        lemma_first_delimiter_inside(b, delim, origin, c, m - 1);
        assert(b[m - 2] != LF);
    }
}

/// A line that is no delimiter line passes the search on to the next line.
pub proof fn lemma_first_delimiter_step(b: Seq<u8>, delim: u8, origin: int, c: int)
    requires
        0 <= origin <= c < b.len(),
        !delimiter_line_at(b, delim, c),
    ensures
        first_delimiter_from(b, delim, origin, c) == first_delimiter_from(
            b,
            delim,
            origin,
            next_line_start(b, c),
        ),
{
    lemma_line_end(b, c);
    lemma_first_delimiter_inside(b, delim, origin, c, next_line_start(b, c));
}

/// Finds the first line feed at or after `start`.
pub fn find_next_newline(input: &[u8], start: usize) -> (r: Option<usize>)
    requires
        start <= input@.len(),
    ensures
        r matches Some(p) ==> p == line_end(input@, start as int) && p < input@.len(),
        r is None ==> line_end(input@, start as int) == input@.len(),
{
    let mut i = start;
    while i < input.len()
        invariant
            start <= i <= input@.len(),
            line_end(input@, start as int) == line_end(input@, i as int),
        decreases input@.len() - i,
    {
        if input[i] == LF {
            return Some(i);
        }
        i = i + 1;
    }
    None
}

/// Reads the line that starts at `cursor`: whether it is a delimiter line, and where the next
/// line starts.
pub fn scan_line(input: &[u8], cursor: usize, delim: u8) -> (r: (bool, usize))
    requires
        cursor < input@.len(),
    ensures
        r.0 == delimiter_line_at(input@, delim, cursor as int),
        r.1 == next_line_start(input@, cursor as int),
        cursor < r.1 <= input@.len(),
{
    proof {
        lemma_line_end(input@, cursor as int);
    }
    let line_end = match find_next_newline(input, cursor) {
        Some(p) => p,
        None => input.len(),
    };
    let mut content_end = line_end;
    if content_end > cursor && input[content_end - 1] == CR {
        content_end = content_end - 1;
    }
    let is_delim = content_end - cursor == 1 && input[cursor] == delim;
    let next = if line_end < input.len() {
        line_end + 1
    } else {
        line_end
    };
    (is_delim, next)
}

} // verus!
