//! The number source: a fixed cycle of values, a seeded generator, or the thread's generator.
use vstd::arithmetic::div_mod::{lemma_add_mod_noop_right, lemma_small_mod};
use vstd::prelude::*;
use vstd::string::StringSliceAdditionalSpecFns;

use rand::rngs::StdRng;
use rand::{RngExt, SeedableRng};

verus! {

#[verifier::external_type_specification]
#[verifier::external_body]
pub struct ExStdRng(StdRng);

/// Relies on `SeedableRng::seed_from_u64` for `StdRng`: a generator seeded from `seed`.
#[verifier::external_body]
fn seeded_std_rng(seed: u64) -> StdRng {
    <StdRng as SeedableRng>::seed_from_u64(seed)
}

/// Relies on `RngExt::random` for `StdRng`: the generator's next `u64`.
#[verifier::external_body]
fn std_rng_u64(rng: &mut StdRng) -> u64 {
    rng.random::<u64>()
}

/// Relies on `rand::random`: a `u64` from the thread's generator.
#[verifier::external_body]
fn thread_u64() -> u64 {
    rand::random::<u64>()
}

#[derive(Debug)]
enum Mode {
    HardCoded,
    Seeded(StdRng),
    Thread,
}

/// A draw from a generator mode.
fn draw_generated(mode: &mut Mode) -> (r: u64)
    requires
        !(*old(mode) is HardCoded),
    ensures
        !(*final(mode) is HardCoded),
{
    match mode {
        Mode::Seeded(rng) => std_rng_u64(rng),
        _ => thread_u64(),
    }
}

/// A source of numbers, in one of three modes chosen at construction.
#[derive(Debug)]
pub struct FortuneRng {
    mode: Mode,
    values: Vec<u64>,
    index: usize,
}

/// Why the fixed values could not be read.
#[derive(Debug, Clone, Copy, PartialEq, Eq)]
pub enum RngError {
    /// The bytes `[start, end)` of the value list are not a decimal `u64`.
    InvalidValue { start: usize, end: usize },
    /// The value list holds no value.
    NoValues,
}

impl FortuneRng {
    /// Well-formedness: in fixed mode the position lies within the values.
    pub closed spec fn wf(&self) -> bool {
        self.mode is HardCoded ==> self.index < self.values@.len()
    }

    /// Whether the source cycles through fixed values.
    pub closed spec fn is_fixed(&self) -> bool {
        self.mode is HardCoded
    }

    /// The fixed values, in the order they come.
    pub closed spec fn values(&self) -> Seq<u64> {
        if self.mode is HardCoded {
            self.values@
        } else {
            Seq::empty()
        }
    }

    /// How far into the fixed values the next draw is.
    pub closed spec fn position(&self) -> int {
        if self.mode is HardCoded {
            self.index as int
        } else {
            0
        }
    }

    /// The fixed value that the draw `k` draws after this one yields.
    pub open spec fn upcoming(&self, k: int) -> u64 {
        self.values()[(self.position() + k) % (self.values().len() as int)]
    }

    /// Whether `after` is this fixed source moved on by `k` draws.
    pub open spec fn advanced(&self, after: &FortuneRng, k: int) -> bool {
        &&& after.is_fixed() == self.is_fixed()
        &&& self.is_fixed() ==> {
            &&& after.values() == self.values()
            &&& after.position() == (self.position() + k) % (self.values().len() as int)
        }
    }

    /// Moving on by no draw leaves the source as it is.
    pub proof fn lemma_advanced_zero(&self)
        requires
            self.wf(),
        ensures
            self.advanced(self, 0),
    {
        if self.is_fixed() {
            lemma_small_mod(self.position() as nat, self.values().len());
        }
    }

    /// Moving on by `m` draws and then by `k` more is moving on by `m + k` draws.
    pub proof fn lemma_advanced_trans(&self, b: &FortuneRng, c: &FortuneRng, m: int, k: int)
        requires
            self.wf(),
            self.advanced(b, m),
            b.advanced(c, k),
        ensures
            self.advanced(c, m + k),
    {
        if self.is_fixed() {
            let n = self.values().len() as int;
            lemma_add_mod_noop_right(k, self.position() + m, n);
        }
    }

    /// After `m` draws, the fixed value `k` draws ahead is the one `m + k` draws ahead now.
    pub proof fn lemma_upcoming_after(&self, b: &FortuneRng, m: int, k: int)
        requires
            self.wf(),
            self.advanced(b, m),
        ensures
            self.is_fixed() ==> b.upcoming(k) == self.upcoming(m + k),
    {
        if self.is_fixed() {
            let n = self.values().len() as int;
            lemma_add_mod_noop_right(k, self.position() + m, n);
        }
    }

    /// A source that cycles through `values`, starting at the first.
    pub fn fixed(values: Vec<u64>) -> (r: FortuneRng)
        requires
            values@.len() > 0,
        ensures
            r.wf(),
            r.is_fixed(),
            r.values() == values@,
            r.position() == 0,
    {
        FortuneRng { mode: Mode::HardCoded, values, index: 0 }
    }

    /// A generator seeded from `seed`.
    pub fn seeded(seed: u64) -> (r: FortuneRng)
        ensures
            r.wf(),
            !r.is_fixed(),
    {
        FortuneRng { mode: Mode::Seeded(seeded_std_rng(seed)), values: Vec::new(), index: 0 }
    }

    /// The thread's generator.
    pub fn thread() -> (r: FortuneRng)
        ensures
            r.wf(),
            !r.is_fixed(),
    {
        FortuneRng { mode: Mode::Thread, values: Vec::new(), index: 0 }
    }

    /// The next number: in fixed mode the value at the current position, after which the
    /// position moves on, wrapping to the first value after the last.
    pub fn next_u64(&mut self) -> (r: u64)
        requires
            old(self).wf(),
        ensures
            final(self).wf(),
            old(self).advanced(final(self), 1),
            old(self).is_fixed() ==> r == old(self).upcoming(0),
    {
        if let Mode::HardCoded = self.mode {
            let n = self.values.len();
            proof {
                lemma_small_mod(self.index as nat, n as nat);
            }
            let value = self.values[self.index];
            self.index = (self.index + 1) % n;
            value
        } else {
            draw_generated(&mut self.mode)
        }
    }

    /// A number below `upper`: the next number modulo `upper`, or `0` without a draw when
    /// `upper` is `0`.
    pub fn next_index(&mut self, upper: usize) -> (r: usize)
        requires
            old(self).wf(),
        ensures
            final(self).wf(),
            upper == 0 ==> r == 0 && old(self).advanced(final(self), 0),
            upper > 0 ==> r < upper && old(self).advanced(final(self), 1),
            upper > 0 && old(self).is_fixed() ==> r == (old(self).upcoming(0) as int) % (upper as int),
    {
        if upper == 0 {
            proof {
                if self.is_fixed() {
                    lemma_small_mod(self.position() as nat, self.values().len());
                }
            }
            return 0;
        }
        let raw = self.next_u64();
        (raw % (upper as u64)) as usize
    }
}

/// Whether a byte separates fixed values: a comma, a semicolon or ASCII white space.
pub open spec fn is_value_separator(c: u8) -> bool {
    c == 0x2c || c == 0x3b || c == 0x20 || c == 0x09 || c == 0x0a || c == 0x0c || c == 0x0d
}

/// The value tokens finished within `b[..n]`, as `[start, end)` ranges, and where the token in
/// progress starts (`n` when none is).
pub open spec fn split_state(b: Seq<u8>, n: int) -> (Seq<(int, int)>, int)
    decreases n,
{
    if n <= 0 {
        (Seq::empty(), 0)
    } else {
        let (done, cs) = split_state(b, n - 1);
        if is_value_separator(b[n - 1]) {
            (
                if cs < n - 1 {
                    done.push((cs, n - 1))
                } else {
                    done
                },
                n,
            )
        } else {
            (done, cs)
        }
    }
}

/// The value tokens of `b`: its maximal runs of bytes that are not separators.
pub open spec fn token_ranges(b: Seq<u8>) -> Seq<(int, int)> {
    let (done, cs) = split_state(b, b.len() as int);
    if cs < b.len() {
        done.push((cs, b.len() as int))
    } else {
        done
    }
}

/// Whether a byte is an ASCII decimal digit.
pub open spec fn is_digit(c: u8) -> bool {
    0x30 <= c <= 0x39
}

/// The number that a run of decimal digits writes.
pub open spec fn digits_value(d: Seq<u8>) -> int
    decreases d.len(),
{
    if d.len() == 0 {
        0
    } else {
        digits_value(d.drop_last()) * 10 + (d.last() - 0x30)
    }
}

/// The digits of a token: the token less one leading `+`.
pub open spec fn unsigned_digits(t: Seq<u8>) -> Seq<u8> {
    if t.len() > 0 && t[0] == 0x2b {
        t.drop_first()
    } else {
        t
    }
}

/// What `u64::from_str` makes of `t`: an optional `+`, then one or more decimal digits whose
/// value fits in a `u64`.
pub open spec fn parse_u64_spec(t: Seq<u8>) -> Option<u64> {
    let d = unsigned_digits(t);
    if d.len() > 0 && (forall|i: int| 0 <= i < d.len() ==> is_digit(#[trigger] d[i]))
        && digits_value(d) <= u64::MAX {
        Some(digits_value(d) as u64)
    } else {
        None
    }
}

/// The values of the tokens `ts` of `b`, or the first token that is no value.
pub open spec fn parse_tokens(b: Seq<u8>, ts: Seq<(int, int)>) -> Result<Seq<u64>, RngError>
    decreases ts.len(),
{
    if ts.len() == 0 {
        Ok(Seq::empty())
    } else {
        match parse_tokens(b, ts.drop_last()) {
            Err(e) => Err(e),
            Ok(vs) => match parse_u64_spec(b.subrange(ts.last().0, ts.last().1)) {
                None => Err(RngError::InvalidValue { start: ts.last().0 as usize, end: ts.last().1 as usize }),
                Some(v) => Ok(vs.push(v)),
            },
        }
    }
}

/// The fixed values that a value list writes, or why it writes none.
pub open spec fn hardcoded_values(b: Seq<u8>) -> Result<Seq<u64>, RngError> {
    match parse_tokens(b, token_ranges(b)) {
        Err(e) => Err(e),
        Ok(vs) => if vs.len() == 0 {
            Err(RngError::NoValues)
        } else {
            Ok(vs)
        },
    }
}

/// Whether a flag's value counts as set: anything but empty, `0`, `false`, `False` or `FALSE`.
pub open spec fn is_truthy(v: Seq<char>) -> bool {
    !(v.len() == 0 || v == "0"@ || v == "false"@ || v == "False"@ || v == "FALSE"@)
}

/// A digit run's value only grows as digits are added.
proof fn lemma_digits_prefix(d: Seq<u8>, j: int)
    requires
        0 <= j <= d.len(),
        forall|i: int| 0 <= i < d.len() ==> is_digit(#[trigger] d[i]),
    ensures
        0 <= digits_value(d.subrange(0, j)) <= digits_value(d),
    decreases d.len() - j,
{
    if j < d.len() {
        lemma_digits_prefix(d, j + 1);
        assert(d.subrange(0, j + 1).drop_last() =~= d.subrange(0, j));
        lemma_digits_nonnegative(d.subrange(0, j));
    } else {
        assert(d.subrange(0, j) =~= d);
        lemma_digits_nonnegative(d);
    }
}

/// A digit run's value is not negative.
proof fn lemma_digits_nonnegative(d: Seq<u8>)
    requires
        forall|i: int| 0 <= i < d.len() ==> is_digit(#[trigger] d[i]),
    ensures
        digits_value(d) >= 0,
    decreases d.len(),
{
    if d.len() > 0 {
        lemma_digits_nonnegative(d.drop_last());
    }
}

/// Reads the token `b[start..end]` as `u64::from_str` does.
fn parse_u64(b: &[u8], start: usize, end: usize) -> (r: Option<u64>)
    requires
        start <= end <= b@.len(),
    ensures
        r == parse_u64_spec(b@.subrange(start as int, end as int)),
{
    let ghost t = b@.subrange(start as int, end as int);
    let first = if start < end && b[start] == 0x2b {
        start + 1
    } else {
        start
    };
    let ghost d = b@.subrange(first as int, end as int);
    assert(d =~= unsigned_digits(t));
    if first == end {
        assert(d.len() == 0);
        return None;
    }
    let mut value: u64 = 0;
    let mut i = first;
    while i < end
        invariant
            first <= i <= end <= b@.len(),
            t == b@.subrange(start as int, end as int),
            d == unsigned_digits(t),
            d == b@.subrange(first as int, end as int),
            forall|k: int| 0 <= k < i - first ==> is_digit(#[trigger] d[k]),
            value == digits_value(d.subrange(0, i - first)),
        decreases end - i,
    {
        let c = b[i];
        assert(d[i - first] == c);
        if c < 0x30 || c > 0x39 {
            assert(!is_digit(d[i - first]));
            return None;
        }
        assert(d.subrange(0, i + 1 - first).drop_last() =~= d.subrange(0, i - first));
        let next = match value.checked_mul(10) {
            Some(v) => v.checked_add((c - 0x30) as u64),
            None => None,
        };
        match next {
            Some(v) => {
                value = v;
            },
            None => {
                proof {
                    if forall|k: int| 0 <= k < d.len() ==> is_digit(#[trigger] d[k]) {
                        lemma_digits_prefix(d, i + 1 - first);
                    }
                }
                return None;
            },
        }
        i = i + 1;
    }
    assert(d.subrange(0, end - first) =~= d);
    Some(value)
}

/// Splits a value list into its tokens.
fn split_values(b: &[u8]) -> (r: Vec<(usize, usize)>)
    ensures
        r@.len() == token_ranges(b@).len(),
        forall|k: int|
            0 <= k < r@.len() ==> (#[trigger] r@[k]).0 == token_ranges(b@)[k].0 && r@[k].1
                == token_ranges(b@)[k].1 && r@[k].0 <= r@[k].1 <= b@.len(),
{
    let n = b.len();
    let mut out: Vec<(usize, usize)> = Vec::new();
    let mut start: usize = 0;
    let mut i: usize = 0;
    while i < n
        invariant
            n == b@.len(),
            i <= n,
            start <= i,
            split_state(b@, i as int).1 == start,
            out@.len() == split_state(b@, i as int).0.len(),
            forall|k: int|
                0 <= k < out@.len() ==> (#[trigger] out@[k]).0 == split_state(b@, i as int).0[k].0
                    && out@[k].1 == split_state(b@, i as int).0[k].1 && out@[k].0 <= out@[k].1
                    <= b@.len(),
        decreases n - i,
    {
        let c = b[i];
        if c == 0x2c || c == 0x3b || c == 0x20 || c == 0x09 || c == 0x0a || c == 0x0c || c == 0x0d {
            if start < i {
                out.push((start, i));
            }
            start = i + 1;
        }
        i = i + 1;
    }
    if start < n {
        out.push((start, n));
    }
    out
}

/// Once reading the values has failed, it stays failed with the same error.
proof fn lemma_parse_tokens_error(b: Seq<u8>, ts: Seq<(int, int)>, m: int)
    requires
        0 <= m <= ts.len(),
        parse_tokens(b, ts.subrange(0, m)) is Err,
    ensures
        parse_tokens(b, ts) == parse_tokens(b, ts.subrange(0, m)),
    decreases ts.len() - m,
{
    if m < ts.len() {
        assert(ts.subrange(0, m + 1).drop_last() =~= ts.subrange(0, m));
        lemma_parse_tokens_error(b, ts, m + 1);
    } else {
        assert(ts.subrange(0, m) =~= ts);
    }
}

/// Reads a list of fixed values: decimal `u64` tokens separated by commas, semicolons or
/// white space. Fails on the first token that is no value, or when there is no token.
pub fn parse_hardcoded_values(raw: &str) -> (r: Result<Vec<u64>, RngError>)
    ensures
        match hardcoded_values(raw.spec_bytes()) {
            Ok(vs) => r matches Ok(v) && v@ == vs,
            Err(e) => r == Err::<Vec<u64>, RngError>(e),
        },
{
    let b = raw.as_bytes();
    let tokens = split_values(b);
    let ghost ts = token_ranges(b@);
    let mut out: Vec<u64> = Vec::new();
    let mut k: usize = 0;
    while k < tokens.len()
        invariant
            b@ == raw.spec_bytes(),
            ts == token_ranges(b@),
            tokens@.len() == ts.len(),
            forall|q: int|
                0 <= q < tokens@.len() ==> (#[trigger] tokens@[q]).0 == ts[q].0 && tokens@[q].1
                    == ts[q].1 && tokens@[q].0 <= tokens@[q].1 <= b@.len(),
            k <= tokens@.len(),
            parse_tokens(b@, ts.subrange(0, k as int)) == Ok::<Seq<u64>, RngError>(out@),
        decreases tokens@.len() - k,
    {
        let (start, end) = tokens[k];
        assert(ts.subrange(0, k + 1).drop_last() =~= ts.subrange(0, k as int));
        match parse_u64(b, start, end) {
            Some(v) => {
                out.push(v);
            },
            None => {
                proof {
                    lemma_parse_tokens_error(b@, ts, k + 1);
                }
                return Err(RngError::InvalidValue { start, end });
            },
        }
        k = k + 1;
    }
    assert(ts.subrange(0, k as int) =~= ts);
    if out.len() == 0 {
        return Err(RngError::NoValues);
    }
    Ok(out)
}

/// Whether two strings hold the same characters.
fn same_text(a: &str, b: &str) -> (r: bool)
    ensures
        r == (a@ == b@),
{
    let n = a.unicode_len();
    if n != b.unicode_len() {
        return false;
    }
    let mut i: usize = 0;
    while i < n
        invariant
            n == a@.len(),
            n == b@.len(),
            i <= n,
            forall|k: int| 0 <= k < i ==> a@[k] == b@[k],
        decreases n - i,
    {
        if a.get_char(i) != b.get_char(i) {
            return false;
        }
        i = i + 1;
    }
    assert(a@ =~= b@);
    true
}

/// Whether a flag's value counts as set: anything but empty, `0`, `false`, `False` or `FALSE`.
pub fn env_truthy(value: &str) -> (r: bool)
    ensures
        r == is_truthy(value@),
{
    !(value.unicode_len() == 0 || same_text(value, "0") || same_text(value, "false") || same_text(
        value,
        "False",
    ) || same_text(value, "FALSE"))
}

impl FortuneRng {
    /// Chooses the mode from the configuration: a value list, when one is given, selects fixed
    /// mode (and must read); else a set srand flag selects a generator seeded from `seed`; else
    /// the thread's generator is used.
    pub fn from_env_values(hard_coded: Option<&str>, use_srand: Option<&str>, seed: u64) -> (r:
        Result<FortuneRng, RngError>)
        ensures
            r matches Ok(g) ==> g.wf(),
            hard_coded matches Some(raw) ==> match hardcoded_values(raw.spec_bytes()) {
                Ok(vs) => r matches Ok(g) && g.is_fixed() && g.values() == vs && g.position() == 0,
                Err(e) => r == Err::<FortuneRng, RngError>(e),
            },
            hard_coded is None ==> (r matches Ok(g) && !g.is_fixed()),
    {
        if let Some(raw) = hard_coded {
            return match parse_hardcoded_values(raw) {
                Ok(values) => Ok(FortuneRng::fixed(values)),
                Err(e) => Err(e),
            };
        }
        if let Some(flag) = use_srand {
            if env_truthy(flag) {
                return Ok(FortuneRng::seeded(seed));
            }
        }
        Ok(FortuneRng::thread())
    }
}

} // verus!
