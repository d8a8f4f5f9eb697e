//! Weighted selection over loaded corpora, and the pattern scan.
//!
//! Percentages are exact integers counted in millionths of a percent, so that the whole is
//! `FULL_PERCENT`.
use vstd::arithmetic::div_mod::{
    lemma_div_by_multiple, lemma_div_is_ordered, lemma_multiply_divide_lt,
};
use vstd::prelude::*;

use crate::datfile::{FortuneError, FortuneFile, LengthFilter, lossy_utf8};
use crate::rng::FortuneRng;

verus! {

/// One percent, in the units that percentages are counted in.
pub const PERCENT_UNIT: u64 = 1_000_000;

/// A hundred percent, in the units that percentages are counted in.
pub const FULL_PERCENT: u64 = 100_000_000;

/// A corpus ready for selection: its explicit percentage, if it has one, and the records that
/// pass the length filter.
#[derive(Debug, Clone)]
pub struct LoadedSource {
    /// The corpus and its index.
    pub db: FortuneFile,
    /// The percentage given for this corpus, in millionths of a percent.
    pub explicit_percent: Option<u64>,
    /// The records that pass the length filter, in increasing order.
    pub candidate_indices: Vec<usize>,
}

/// Why loading, weighing or selecting failed.
#[derive(Debug, Clone, Copy, PartialEq, Eq)]
pub enum EngineError {
    /// No source has a record that passes the length filter.
    NoSources,
    /// No source was given to weigh.
    NoEntries,
    /// A record could not be read.
    Record(FortuneError),
    /// The explicit percentages add up to more than a hundred percent.
    PercentOverflow,
    /// Every source's probability is zero.
    AllZero,
    /// Sources and probabilities differ in number.
    LengthMismatch,
    /// The probabilities add up to zero.
    ZeroTotal,
    /// The probabilities add up to more than a `u64` holds.
    TotalOverflow,
    /// The chosen source has no candidate record.
    NoCandidates,
}

/// The explicit percentage of a source, `0` when it has none.
pub open spec fn explicit_of(x: LoadedSource) -> int {
    match x.explicit_percent {
        Some(p) => p as int,
        None => 0,
    }
}

/// The sum of the explicit percentages.
pub open spec fn explicit_total(e: Seq<LoadedSource>) -> int
    decreases e.len(),
{
    if e.len() == 0 {
        0
    } else {
        explicit_total(e.drop_last()) + explicit_of(e.last())
    }
}

/// The base weight of a source: `0` with an explicit percentage, else `1` when all sources
/// weigh the same, else its number of candidates.
pub open spec fn base_weight(x: LoadedSource, equal_prob: bool) -> int {
    if x.explicit_percent is Some {
        0
    } else if equal_prob {
        1
    } else {
        x.candidate_indices@.len() as int
    }
}

/// The sum of the base weights.
pub open spec fn base_total(e: Seq<LoadedSource>, equal_prob: bool) -> int
    decreases e.len(),
{
    if e.len() == 0 {
        0
    } else {
        base_total(e.drop_last(), equal_prob) + base_weight(e.last(), equal_prob)
    }
}

/// The probability of source `k`: its explicit percentage, or its share, by base weight, of
/// what the explicit percentages leave (rounded down).
pub open spec fn probability(e: Seq<LoadedSource>, equal_prob: bool, k: int) -> int {
    match e[k].explicit_percent {
        Some(p) => p as int,
        None => {
            let t = base_total(e, equal_prob);
            if t > 0 {
                (FULL_PERCENT - explicit_total(e)) * base_weight(e[k], equal_prob) / t
            } else {
                0
            }
        },
    }
}

/// Why weighing the sources fails, if it does.
pub open spec fn probabilities_error(e: Seq<LoadedSource>, equal_prob: bool) -> Option<
    EngineError,
> {
    if e.len() == 0 {
        Some(EngineError::NoEntries)
    } else if explicit_total(e) > FULL_PERCENT {
        Some(EngineError::PercentOverflow)
    } else if forall|k: int| 0 <= k < e.len() ==> #[trigger] probability(e, equal_prob, k) == 0 {
        Some(EngineError::AllZero)
    } else {
        None
    }
}

/// A sum over a prefix is at most the sum over the whole.
proof fn lemma_explicit_total_prefix(e: Seq<LoadedSource>, j: int)
    requires
        0 <= j <= e.len(),
    ensures
        explicit_total(e.subrange(0, j)) <= explicit_total(e),
    decreases e.len() - j,
{
    if j < e.len() {
        lemma_explicit_total_prefix(e, j + 1);
        assert(e.subrange(0, j + 1).drop_last() =~= e.subrange(0, j));
    } else {
        assert(e.subrange(0, j) =~= e);
    }
}

/// Each explicit percentage is at most their sum, and each base weight at most theirs.
proof fn lemma_part_of_total(e: Seq<LoadedSource>, equal_prob: bool, k: int)
    requires
        0 <= k < e.len(),
    ensures
        explicit_of(e[k]) <= explicit_total(e),
        base_weight(e[k], equal_prob) <= base_total(e, equal_prob),
        explicit_total(e) >= 0,
        base_total(e, equal_prob) >= 0,
    decreases e.len(),
{
    lemma_totals_nonnegative(e, equal_prob);
    lemma_totals_nonnegative(e.drop_last(), equal_prob);
    if k < e.len() - 1 {
        lemma_part_of_total(e.drop_last(), equal_prob, k);
        assert(e.drop_last()[k] == e[k]);
    }
}

/// The sums are never negative.
proof fn lemma_totals_nonnegative(e: Seq<LoadedSource>, equal_prob: bool)
    ensures
        explicit_total(e) >= 0,
        base_total(e, equal_prob) >= 0,
    decreases e.len(),
{
    if e.len() > 0 {
        lemma_totals_nonnegative(e.drop_last(), equal_prob);
    }
}

/// What loading keeps of the first `n` opened corpora: each that has candidates, with its
/// explicit percentage and its candidates, in order; or the first error.
pub open spec fn loaded_upto(
    srcs: Seq<(FortuneFile, Option<u64>)>,
    filter: LengthFilter,
    n: int,
) -> Result<Seq<(FortuneFile, Option<u64>, Seq<usize>)>, EngineError>
    decreases n,
{
    if n <= 0 {
        Ok(Seq::empty())
    } else {
        match loaded_upto(srcs, filter, n - 1) {
            Err(e) => Err(e),
            Ok(acc) => {
                let db = srcs[n - 1].0;
                match db.candidates_upto(filter, db.dat.offsets@.len() as int) {
                    Err(e) => Err(EngineError::Record(e)),
                    Ok(c) => Ok(
                        if c.len() > 0 {
                            acc.push((db, srcs[n - 1].1, c))
                        } else {
                            acc
                        },
                    ),
                }
            },
        }
    }
}

/// Once loading has failed, it stays failed with the same error.
proof fn lemma_loaded_error(
    srcs: Seq<(FortuneFile, Option<u64>)>,
    filter: LengthFilter,
    m: int,
    n: int,
)
    requires
        1 <= m <= n,
        loaded_upto(srcs, filter, m) is Err,
    ensures
        loaded_upto(srcs, filter, n) == loaded_upto(srcs, filter, m),
    decreases n - m,
{
    if m < n {
        lemma_loaded_error(srcs, filter, m + 1, n);
    }
}

/// Finds the candidates of each opened corpus under `length_filter`, and keeps the corpora
/// that have at least one.
#[verifier::loop_isolation(false)]
pub fn load_sources(opened: Vec<(FortuneFile, Option<u64>)>, length_filter: LengthFilter) -> (r:
    Result<Vec<LoadedSource>, EngineError>)
    ensures
        match loaded_upto(opened@, length_filter, opened@.len() as int) {
            Err(e) => r == Err::<Vec<LoadedSource>, EngineError>(e),
            Ok(acc) => if acc.len() == 0 {
                r == Err::<Vec<LoadedSource>, EngineError>(EngineError::NoSources)
            } else {
                r matches Ok(v) && v@.len() == acc.len() && forall|k: int|
                    0 <= k < acc.len() ==> {
                        &&& (#[trigger] v@[k]).db == acc[k].0
                        &&& v@[k].explicit_percent == acc[k].1
                        &&& v@[k].candidate_indices@ == acc[k].2
                    }
            },
        },
        r matches Ok(v) ==> candidates_increasing(v@),
{
    let ghost srcs = opened@;
    let n = opened.len();
    let mut rest = opened;
    let mut out: Vec<LoadedSource> = Vec::new();
    let mut i: usize = 0;
    while rest.len() > 0
        invariant
            n == srcs.len(),
            i <= srcs.len(),
            rest@ == srcs.subrange(i as int, srcs.len() as int),
            loaded_upto(srcs, length_filter, i as int) matches Ok(acc) && out@.len() == acc.len()
                && forall|k: int|
                0 <= k < acc.len() ==> {
                    &&& (#[trigger] out@[k]).db == acc[k].0
                    &&& out@[k].explicit_percent == acc[k].1
                    &&& out@[k].candidate_indices@ == acc[k].2
                },
            candidates_increasing(out@),
        decreases rest@.len(),
    {
        let ghost acc = loaded_upto(srcs, length_filter, i as int)->Ok_0;
        let (db, explicit_percent) = rest.remove(0);
        assert(srcs[i as int] == (db, explicit_percent));
        let candidate_indices = match db.candidate_indices(length_filter) {
            Ok(c) => c,
            Err(e) => {
                proof {
                    assert(loaded_upto(srcs, length_filter, i + 1) == Err::<
                        Seq<(FortuneFile, Option<u64>, Seq<usize>)>,
                        EngineError,
                    >(EngineError::Record(e)));
                    lemma_loaded_error(srcs, length_filter, i + 1, srcs.len() as int);
                }
                return Err(EngineError::Record(e));
            },
        };
        if candidate_indices.len() > 0 {
            let ghost before = out@;
            out.push(LoadedSource { db, explicit_percent, candidate_indices });
            assert forall|s: int, a: int, b: int|
                0 <= s < out@.len() && 0 <= a < b < out@[s].candidate_indices@.len() implies #[trigger] out@[s].candidate_indices@[a]
                    < #[trigger] out@[s].candidate_indices@[b] by {
                if s < before.len() {
                    assert(out@[s] == before[s]);
                }
            }
        }
        i = i + 1;
        assert(rest@ =~= srcs.subrange(i as int, srcs.len() as int));
        proof {
            let acc2 = loaded_upto(srcs, length_filter, i as int)->Ok_0;
            assert forall|k: int| 0 <= k < acc2.len() implies {
                &&& (#[trigger] out@[k]).db == acc2[k].0
                &&& out@[k].explicit_percent == acc2[k].1
                &&& out@[k].candidate_indices@ == acc2[k].2
            } by {
                if k < acc.len() {
                    assert(acc2[k] == acc[k]);
                }
            }
        }
    }
    if out.len() == 0 {
        return Err(EngineError::NoSources);
    }
    Ok(out)
}

/// Weighs the sources: each gets its explicit percentage, and the sources without one share
/// what is left of a hundred percent by base weight (their candidate counts, or equally).
#[verifier::loop_isolation(false)]
pub fn calculate_probabilities(entries: &[LoadedSource], equal_prob: bool) -> (r: Result<
    Vec<u64>,
    EngineError,
>)
    ensures
        match probabilities_error(entries@, equal_prob) {
            Some(e) => r == Err::<Vec<u64>, EngineError>(e),
            None => r matches Ok(v) && v@.len() == entries@.len() && forall|k: int|
                0 <= k < entries@.len() ==> #[trigger] v@[k] == probability(entries@, equal_prob, k),
        },
{
    let ghost e = entries@;
    let n = entries.len();
    if n == 0 {
        return Err(EngineError::NoEntries);
    }

    let mut specified: u64 = 0;
    let mut i: usize = 0;
    while i < n
        invariant
            n == e.len(),
            i <= n,
            specified == explicit_total(e.subrange(0, i as int)),
            specified <= FULL_PERCENT,
        decreases n - i,
    {
        assert(e.subrange(0, i + 1).drop_last() =~= e.subrange(0, i as int));
        match entries[i].explicit_percent {
            Some(p) => {
                if p > FULL_PERCENT - specified {
                    proof {
                        lemma_explicit_total_prefix(e, i + 1);
                    }
                    return Err(EngineError::PercentOverflow);
                }
                specified = specified + p;
            },
            None => {},
        }
        i = i + 1;
    }
    assert(e.subrange(0, n as int) =~= e);
    let remaining = FULL_PERCENT - specified;

    let mut total_base: u128 = 0;
    let mut i: usize = 0;
    while i < n
        invariant
            n == e.len(),
            i <= n,
            total_base == base_total(e.subrange(0, i as int), equal_prob),
            total_base <= i * 0xFFFF_FFFF_FFFF_FFFFu128,
        decreases n - i,
    {
        assert(e.subrange(0, i + 1).drop_last() =~= e.subrange(0, i as int));
        let w: u128 = if entries[i].explicit_percent.is_some() {
            0
        } else if equal_prob {
            1
        } else {
            entries[i].candidate_indices.len() as u128
        };
        total_base = total_base + w;
        i = i + 1;
    }
    assert(e.subrange(0, n as int) =~= e);

    let mut probs: Vec<u64> = Vec::new();
    let mut any_positive = false;
    let mut i: usize = 0;
    while i < n
        invariant
            n == e.len(),
            i <= n,
            remaining == FULL_PERCENT - explicit_total(e),
            explicit_total(e) <= FULL_PERCENT,
            total_base == base_total(e, equal_prob),
            probs@.len() == i,
            forall|k: int| 0 <= k < i ==> #[trigger] probs@[k] == probability(e, equal_prob, k),
            any_positive <==> exists|k: int| 0 <= k < i && #[trigger] probability(e, equal_prob, k) != 0,
        decreases n - i,
    {
        proof {
            lemma_part_of_total(e, equal_prob, i as int);
        }
        let prob: u64 = match entries[i].explicit_percent {
            Some(p) => p,
            None => {
                if total_base > 0 {
                    let w: u128 = if equal_prob {
                        1
                    } else {
                        entries[i].candidate_indices.len() as u128
                    };
                    proof {
                        let rr = remaining as int;
                        let ww = w as int;
                        let tt = total_base as int;
                        assert(rr * ww <= rr * tt) by (nonlinear_arith)
                            requires
                                0 <= ww <= tt,
                                0 <= rr,
                        ;
                        lemma_div_is_ordered(rr * ww, rr * tt, tt);
                        lemma_div_by_multiple(rr, tt);
                        assert(rr * ww <= 100_000_000 * 0xFFFF_FFFF_FFFF_FFFF) by (nonlinear_arith)
                            requires
                                0 <= rr <= 100_000_000,
                                0 <= ww <= 0xFFFF_FFFF_FFFF_FFFF,
                        ;
                    }
                    ((remaining as u128) * w / total_base) as u64
                } else {
                    0
                }
            },
        };
        assert(prob == probability(e, equal_prob, i as int));
        if prob != 0 {
            any_positive = true;
        }
        probs.push(prob);
        i = i + 1;
    }
    if !any_positive {
        return Err(EngineError::AllZero);
    }
    Ok(probs)
}

/// A selected record: its corpus, its index there, and its text.
#[derive(Debug, Clone)]
pub struct FortuneSelection {
    pub source_path: String,
    pub record_index: usize,
    pub text: String,
}

/// The sum of a sequence of `u64`.
pub open spec fn sum_u64(s: Seq<u64>) -> int
    decreases s.len(),
{
    if s.len() == 0 {
        0
    } else {
        sum_u64(s.drop_last()) + s.last()
    }
}

/// The source that a marker falls into, walking from source `i`: the first whose mass lies
/// above what is left of the marker, or the last source when none does.
pub open spec fn pick_from(probs: Seq<u64>, marker: int, i: int) -> int
    decreases probs.len() - i,
{
    if i >= probs.len() {
        probs.len() - 1
    } else if marker < probs[i] {
        i
    } else {
        pick_from(probs, marker - probs[i], i + 1)
    }
}

/// The marker that a draw sets: the draw, as a fraction of `2^64`, times the total mass
/// (rounded down).
pub open spec fn marker_of(draw: u64, total: int) -> int {
    (draw as int * total) / 0x1_0000_0000_0000_0000
}

/// The source that a draw chooses.
pub open spec fn chosen_source(probs: Seq<u64>, draw: u64) -> int {
    pick_from(probs, marker_of(draw, sum_u64(probs)), 0)
}

/// Why a selection fails before any draw, if it does.
pub open spec fn selection_precheck(e: Seq<LoadedSource>, probs: Seq<u64>) -> Option<EngineError> {
    if e.len() != probs.len() {
        Some(EngineError::LengthMismatch)
    } else if sum_u64(probs) == 0 {
        Some(EngineError::ZeroTotal)
    } else if sum_u64(probs) > u64::MAX {
        Some(EngineError::TotalOverflow)
    } else {
        None
    }
}

/// What a selection with the two draws gives: the chosen source's position, the record index
/// picked among its candidates, and the record's text; or why there is none.
pub open spec fn selection_outcome(
    e: Seq<LoadedSource>,
    probs: Seq<u64>,
    source_draw: u64,
    record_draw: u64,
) -> Result<(int, usize, Seq<char>), EngineError> {
    match selection_precheck(e, probs) {
        Some(x) => Err(x),
        None => {
            let src = chosen_source(probs, source_draw);
            let c = e[src].candidate_indices@;
            if c.len() == 0 {
                Err(EngineError::NoCandidates)
            } else {
                let ri = c[(record_draw as int) % (c.len() as int)];
                match e[src].db.record_of(ri as int) {
                    Err(x) => Err(EngineError::Record(x)),
                    Ok(t) => Ok((src, ri, lossy_utf8(t))),
                }
            }
        },
    }
}

/// Whether `r` is the selection that the two draws give.
pub open spec fn selection_is(
    e: Seq<LoadedSource>,
    probs: Seq<u64>,
    source_draw: u64,
    record_draw: u64,
    r: Result<FortuneSelection, EngineError>,
) -> bool {
    match selection_outcome(e, probs, source_draw, record_draw) {
        Ok((src, ri, text)) => r matches Ok(sel) && sel.source_path@ == e[src].db.text_path@
            && sel.record_index == ri && sel.text@ == text,
        Err(x) => r == Err::<FortuneSelection, EngineError>(x),
    }
}

/// The walk ends on a source.
proof fn lemma_pick_bounds(probs: Seq<u64>, marker: int, i: int)
    requires
        0 <= i <= probs.len(),
        probs.len() > 0,
    ensures
        0 <= pick_from(probs, marker, i) < probs.len(),
    decreases probs.len() - i,
{
    if i < probs.len() && marker >= probs[i] {
        lemma_pick_bounds(probs, marker - probs[i], i + 1);
    }
}

/// A sum of `u64` is never negative.
proof fn lemma_sum_nonnegative(s: Seq<u64>)
    ensures
        sum_u64(s) >= 0,
    decreases s.len(),
{
    if s.len() > 0 {
        lemma_sum_nonnegative(s.drop_last());
    }
}

/// A sum is its first element plus the sum of the rest.
proof fn lemma_sum_first(s: Seq<u64>)
    requires
        s.len() > 0,
    ensures
        sum_u64(s) == s[0] + sum_u64(s.drop_first()),
    decreases s.len(),
{
    if s.len() > 1 {
        lemma_sum_first(s.drop_last());
        assert(s.drop_last().drop_first() =~= s.drop_first().drop_last());
    } else {
        assert(s.drop_first() =~= Seq::<u64>::empty());
        assert(s.drop_last() =~= Seq::<u64>::empty());
    }
}

/// A marker below the mass of the sources from `i` on falls into one of them, and that one
/// has positive mass.
proof fn lemma_pick_positive(probs: Seq<u64>, marker: int, i: int)
    requires
        0 <= i <= probs.len(),
        0 <= marker < sum_u64(probs.subrange(i, probs.len() as int)),
    ensures
        i <= pick_from(probs, marker, i) < probs.len(),
        probs[pick_from(probs, marker, i)] > 0,
    decreases probs.len() - i,
{
    let rest = probs.subrange(i, probs.len() as int);
    if i == probs.len() {
        assert(rest =~= Seq::<u64>::empty());
    } else {
        lemma_sum_first(rest);
        assert(rest.drop_first() =~= probs.subrange(i + 1, probs.len() as int));
        if marker >= probs[i] {
            lemma_pick_positive(probs, marker - probs[i], i + 1);
        }
    }
}

/// Every draw chooses a source of positive probability: the walk never runs past the last
/// source, so its fallback to the last source never decides.
pub proof fn lemma_chosen_source_positive(e: Seq<LoadedSource>, probs: Seq<u64>, draw: u64)
    requires
        selection_precheck(e, probs) is None,
    ensures
        0 <= chosen_source(probs, draw) < probs.len(),
        probs[chosen_source(probs, draw)] > 0,
{
    let total = sum_u64(probs);
    lemma_sum_nonnegative(probs);
    assert(draw as int * total < 0x1_0000_0000_0000_0000 * total) by (nonlinear_arith)
        requires
            0 <= draw < 0x1_0000_0000_0000_0000,
            total > 0,
    ;
    lemma_multiply_divide_lt(draw as int * total, 0x1_0000_0000_0000_0000, total);
    assert(draw as int * total >= 0) by (nonlinear_arith)
        requires
            0 <= draw,
            total > 0,
    ;
    assert(probs.subrange(0, probs.len() as int) =~= probs);
    lemma_pick_positive(probs, marker_of(draw, total), 0);
}

/// The source that the marker falls into, walking the sources in order.
fn pick_source(probabilities: &[u64], marker: u128) -> (r: usize)
    requires
        probabilities@.len() > 0,
    ensures
        r == pick_from(probabilities@, marker as int, 0),
{
    let n = probabilities.len();
    let mut left = marker;
    let mut idx: usize = 0;
    while idx < n
        invariant
            n == probabilities@.len(),
            idx <= n,
            pick_from(probabilities@, marker as int, 0) == pick_from(
                probabilities@,
                left as int,
                idx as int,
            ),
        decreases n - idx,
    {
        let p = probabilities[idx] as u128;
        if left < p {
            return idx;
        }
        left = left - p;
        idx = idx + 1;
    }
    n - 1
}

/// The sum of the probabilities, in a width that cannot overflow.
fn probability_total(probabilities: &[u64]) -> (r: u128)
    ensures
        r == sum_u64(probabilities@),
{
    let n = probabilities.len();
    let mut total: u128 = 0;
    let mut i: usize = 0;
    while i < n
        invariant
            n == probabilities@.len(),
            i <= n,
            total == sum_u64(probabilities@.subrange(0, i as int)),
            total <= i * 0xFFFF_FFFF_FFFF_FFFFu128,
        decreases n - i,
    {
        assert(probabilities@.subrange(0, i + 1).drop_last() =~= probabilities@.subrange(0, i as int));
        total = total + probabilities[i] as u128;
        i = i + 1;
    }
    assert(probabilities@.subrange(0, n as int) =~= probabilities@);
    total
}

/// Selects a record from two numbers drawn beforehand: the first chooses the source by
/// probability mass, walking the sources in order, and the second picks uniformly (by
/// remainder) among its candidates.
pub fn select_with_draws(
    entries: &[LoadedSource],
    probabilities: &[u64],
    source_draw: u64,
    record_draw: u64,
) -> (r: Result<FortuneSelection, EngineError>)
    ensures
        selection_is(entries@, probabilities@, source_draw, record_draw, r),
{
    if entries.len() != probabilities.len() {
        return Err(EngineError::LengthMismatch);
    }
    let total = probability_total(probabilities);
    if total == 0 {
        return Err(EngineError::ZeroTotal);
    }
    if total > u64::MAX as u128 {
        return Err(EngineError::TotalOverflow);
    }
    assert((source_draw as int) * (total as int) <= 0xFFFF_FFFF_FFFF_FFFF * 0xFFFF_FFFF_FFFF_FFFF)
        by (nonlinear_arith)
        requires
            total <= 0xFFFF_FFFF_FFFF_FFFFu128,
    ;
    let marker = (source_draw as u128) * total / 0x1_0000_0000_0000_0000u128;
    let chosen_idx = pick_source(probabilities, marker);
    proof {
        lemma_pick_bounds(probabilities@, marker as int, 0);
    }
    let chosen = &entries[chosen_idx];
    let count = chosen.candidate_indices.len();
    if count == 0 {
        return Err(EngineError::NoCandidates);
    }
    let record_pos = (record_draw % (count as u64)) as usize;
    let record_index = chosen.candidate_indices[record_pos];
    let text = match chosen.db.record_text_lossy(record_index) {
        Ok(t) => t,
        Err(e) => {
            return Err(EngineError::Record(e));
        },
    };
    Ok(FortuneSelection { source_path: chosen.db.text_path.clone(), record_index, text })
}

/// Selects a record at random: checks the sources and probabilities, then draws two numbers
/// from `rng` and selects with them as `select_with_draws` does.
pub fn select_random_fortune(
    entries: &[LoadedSource],
    probabilities: &[u64],
    rng: &mut FortuneRng,
) -> (r: Result<FortuneSelection, EngineError>)
    requires
        old(rng).wf(),
    ensures
        final(rng).wf(),
        selection_precheck(entries@, probabilities@) matches Some(x) ==> r == Err::<
            FortuneSelection,
            EngineError,
        >(x) && *final(rng) == *old(rng),
        selection_precheck(entries@, probabilities@) is None ==> old(rng).advanced(final(rng), 2)
            && exists|d1: u64, d2: u64|
            selection_is(entries@, probabilities@, d1, d2, r) && (old(rng).is_fixed() ==> d1
                == old(rng).upcoming(0) && d2 == old(rng).upcoming(1)),
{
    if entries.len() != probabilities.len() {
        return Err(EngineError::LengthMismatch);
    }
    let total = probability_total(probabilities);
    if total == 0 {
        return Err(EngineError::ZeroTotal);
    }
    if total > u64::MAX as u128 {
        return Err(EngineError::TotalOverflow);
    }
    let ghost rng0 = *rng;
    let source_draw = rng.next_u64();
    let ghost rng1 = *rng;
    let record_draw = rng.next_u64();
    proof {
        rng0.lemma_upcoming_after(&rng1, 1, 0);
        rng0.lemma_advanced_trans(&rng1, rng, 1, 1);
    }
    let r = select_with_draws(entries, probabilities, source_draw, record_draw);
    assert(selection_is(entries@, probabilities@, source_draw, record_draw, r));
    r
}

#[verifier::external_type_specification]
#[verifier::external_body]
pub struct ExRegex(regex::Regex);

#[verifier::external_type_specification]
#[verifier::external_body]
pub struct ExRegexError(regex::Error);

/// Whether the regex crate accepts `pattern`, matched case-insensitively or not.
pub uninterp spec fn regex_compiles(pattern: Seq<char>, ignore_case: bool) -> bool;

/// Whether the regex built from `pattern` finds a match anywhere in `haystack`.
pub uninterp spec fn regex_finds(pattern: Seq<char>, ignore_case: bool, haystack: Seq<char>) -> bool;

/// Relies on `RegexBuilder::build`, after `case_insensitive(ignore_case)`: whether it builds a
/// regex depends on the pattern and the flag alone.
#[verifier::external_body]
fn build_regex(pattern: &str, ignore_case: bool) -> (r: Result<regex::Regex, regex::Error>)
    ensures
        r is Ok <==> regex_compiles(pattern@, ignore_case),
{
    regex::RegexBuilder::new(pattern).case_insensitive(ignore_case).build()
}

/// Relies on `Regex::is_match`: whether the pattern's regex, which `TextPattern::new` built
/// from its source and case flag, matches anywhere in `text`.
#[verifier::external_body]
fn regex_is_match(pattern: &TextPattern, text: &str) -> (r: bool)
    ensures
        r == regex_finds(pattern.source(), pattern.ignores_case(), text@),
{
    pattern.regex.is_match(text)
}

/// Relies on `Display` for `regex::Error`: the error's description.
#[verifier::external_body]
fn regex_error_message(e: &regex::Error) -> String {
    e.to_string()
}

/// Why a pattern could not be compiled, in the regex crate's words.
#[derive(Debug, Clone, PartialEq, Eq)]
pub struct PatternError {
    pub message: String,
}

/// A compiled search pattern. Its fields are private and `new` is its only constructor, so
/// the compiled regex is always the one built from `source` and `ignore_case`.
#[derive(Debug)]
pub struct TextPattern {
    source: String,
    ignore_case: bool,
    regex: regex::Regex,
}

impl TextPattern {
    /// The pattern's text.
    pub closed spec fn source(&self) -> Seq<char> {
        self.source@
    }

    /// Whether the pattern matches without regard to case.
    pub closed spec fn ignores_case(&self) -> bool {
        self.ignore_case
    }

    /// Compiles `pattern`, case-insensitively when `ignore_case` is set.
    pub fn new(pattern: &str, ignore_case: bool) -> (r: Result<TextPattern, PatternError>)
        ensures
            r is Ok <==> regex_compiles(pattern@, ignore_case),
            r matches Ok(p) ==> p.source() == pattern@ && p.ignores_case() == ignore_case,
    {
        match build_regex(pattern, ignore_case) {
            Ok(regex) => Ok(TextPattern { source: String::from_str(pattern), ignore_case, regex }),
            Err(e) => Err(PatternError { message: regex_error_message(&e) }),
        }
    }

    /// Whether the pattern matches anywhere in `text`.
    pub fn is_match(&self, text: &str) -> (r: bool)
        ensures
            r == regex_finds(self.source(), self.ignores_case(), text@),
    {
        regex_is_match(self, text)
    }
}

/// A record that matched the pattern of a scan.
#[derive(Debug, Clone)]
pub struct MatchRecord {
    pub source_path: String,
    pub record_index: usize,
    pub text: String,
}

/// The matches among the first `m` candidates of source `src`, as (source position, record
/// index, text), in candidate order; or the first record error.
pub open spec fn source_matches(e: LoadedSource, src: int, pattern: TextPattern, m: int) -> Result<
    Seq<(int, usize, Seq<char>)>,
    FortuneError,
>
    decreases m,
{
    if m <= 0 {
        Ok(Seq::empty())
    } else {
        match source_matches(e, src, pattern, m - 1) {
            Err(x) => Err(x),
            Ok(acc) => {
                let ri = e.candidate_indices@[m - 1];
                match e.db.record_of(ri as int) {
                    Err(x) => Err(x),
                    Ok(t) => {
                        let text = lossy_utf8(t);
                        Ok(
                            if regex_finds(pattern.source(), pattern.ignores_case(), text) {
                                acc.push((src, ri, text))
                            } else {
                                acc
                            },
                        )
                    },
                }
            },
        }
    }
}

/// The matches in the first `n` sources, source by source; or the first record error.
pub open spec fn scan_upto(entries: Seq<LoadedSource>, pattern: TextPattern, n: int) -> Result<
    Seq<(int, usize, Seq<char>)>,
    FortuneError,
>
    decreases n,
{
    if n <= 0 {
        Ok(Seq::empty())
    } else {
        match scan_upto(entries, pattern, n - 1) {
            Err(x) => Err(x),
            Ok(acc) => match source_matches(
                entries[n - 1],
                n - 1,
                pattern,
                entries[n - 1].candidate_indices@.len() as int,
            ) {
                Err(x) => Err(x),
                Ok(ms) => Ok(acc + ms),
            },
        }
    }
}

/// Once a source's scan has failed, it stays failed with the same error.
proof fn lemma_source_matches_error(e: LoadedSource, src: int, pattern: TextPattern, m: int, n: int)
    requires
        1 <= m <= n,
        source_matches(e, src, pattern, m) is Err,
    ensures
        source_matches(e, src, pattern, n) == source_matches(e, src, pattern, m),
    decreases n - m,
{
    if m < n {
        lemma_source_matches_error(e, src, pattern, m + 1, n);
    }
}

/// Once the scan has failed, it stays failed with the same error.
proof fn lemma_scan_error(entries: Seq<LoadedSource>, pattern: TextPattern, m: int, n: int)
    requires
        1 <= m <= n,
        scan_upto(entries, pattern, m) is Err,
    ensures
        scan_upto(entries, pattern, n) == scan_upto(entries, pattern, m),
    decreases n - m,
{
    if m < n {
        lemma_scan_error(entries, pattern, m + 1, n);
    }
}

/// Whether `v` holds the matches `ms`, one record per match.
pub open spec fn match_records_are(
    entries: Seq<LoadedSource>,
    v: Seq<MatchRecord>,
    ms: Seq<(int, usize, Seq<char>)>,
) -> bool {
    &&& v.len() == ms.len()
    &&& forall|k: int|
        0 <= k < ms.len() ==> {
            &&& (#[trigger] v[k]).source_path@ == entries[ms[k].0].db.text_path@
            &&& v[k].record_index == ms[k].1
            &&& v[k].text@ == ms[k].2
        }
}

/// Scans every candidate of every source, in source order and candidate order, and collects
/// the records whose text the pattern matches. No number is drawn.
#[verifier::loop_isolation(false)]
pub fn collect_matches(entries: &[LoadedSource], pattern: &TextPattern) -> (r: Result<
    Vec<MatchRecord>,
    EngineError,
>)
    ensures
        match scan_upto(entries@, *pattern, entries@.len() as int) {
            Err(x) => r == Err::<Vec<MatchRecord>, EngineError>(EngineError::Record(x)),
            Ok(ms) => r matches Ok(v) && match_records_are(entries@, v@, ms),
        },
{
    let ghost e = entries@;
    let n = entries.len();
    let mut out: Vec<MatchRecord> = Vec::new();
    let mut i: usize = 0;
    while i < n
        invariant
            e == entries@,
            n == e.len(),
            i <= n,
            scan_upto(e, *pattern, i as int) matches Ok(acc) && match_records_are(e, out@, acc),
        decreases n - i,
    {
        let ghost acc = scan_upto(e, *pattern, i as int)->Ok_0;
        let source = &entries[i];
        let count = source.candidate_indices.len();
        let mut j: usize = 0;
        while j < count
            invariant
                e == entries@,
                n == e.len(),
                i < n,
                *source == e[i as int],
                count == source.candidate_indices@.len(),
                j <= count,
                source_matches(*source, i as int, *pattern, j as int) matches Ok(ms)
                    && match_records_are(e, out@, acc + ms),
            decreases count - j,
        {
            let ghost ms = source_matches(*source, i as int, *pattern, j as int)->Ok_0;
            let record_index = source.candidate_indices[j];
            let text = match source.db.record_text_lossy(record_index) {
                Ok(t) => t,
                Err(x) => {
                    proof {
                        lemma_source_matches_error(*source, i as int, *pattern, j + 1, count as int);
                        lemma_scan_error(e, *pattern, i + 1, n as int);
                    }
                    return Err(EngineError::Record(x));
                },
            };
            let ghost before = out@;
            if pattern.is_match(text.as_str()) {
                out.push(
                    MatchRecord { source_path: source.db.text_path.clone(), record_index, text },
                );
                proof {
                    let ms2 = ms.push((i as int, record_index, text@));
                    assert(acc + ms2 =~= (acc + ms).push((i as int, record_index, text@)));
                    assert forall|k: int| 0 <= k < (acc + ms2).len() implies {
                        &&& (#[trigger] out@[k]).source_path@ == e[(acc + ms2)[k].0].db.text_path@
                        &&& out@[k].record_index == (acc + ms2)[k].1
                        &&& out@[k].text@ == (acc + ms2)[k].2
                    } by {
                        if k < before.len() {
                            assert(out@[k] == before[k]);
                        }
                    }
                }
            }
            j = j + 1;
        }
        proof {
            let ms = source_matches(*source, i as int, *pattern, count as int)->Ok_0;
            assert(scan_upto(e, *pattern, i + 1) == Ok::<Seq<(int, usize, Seq<char>)>, FortuneError>(acc + ms));
        }
        i = i + 1;
    }
    Ok(out)
}

/// Without explicit percentages all sources sum to nothing explicit.
proof fn lemma_no_explicit(e: Seq<LoadedSource>)
    requires
        forall|i: int| 0 <= i < e.len() ==> (#[trigger] e[i]).explicit_percent is None,
    ensures
        explicit_total(e) == 0,
    decreases e.len(),
{
    if e.len() > 0 {
        assert forall|i: int| 0 <= i < e.drop_last().len() implies (#[trigger] e.drop_last()[i]).explicit_percent is None by {
            assert(e.drop_last()[i] == e[i]);
        }
        lemma_no_explicit(e.drop_last());
    }
}

/// With no explicit percentage anywhere and weights by candidate count, each source gets its
/// share of all candidates, of a hundred percent (rounded down): probabilities are
/// proportional to candidate counts.
pub proof fn lemma_split_by_candidates(e: Seq<LoadedSource>, k: int)
    requires
        0 <= k < e.len(),
        forall|i: int| 0 <= i < e.len() ==> (#[trigger] e[i]).explicit_percent is None,
    ensures
        base_total(e, false) > 0 ==> probability(e, false, k) == FULL_PERCENT
            * e[k].candidate_indices@.len() / base_total(e, false),
        base_total(e, false) == 0 ==> probability(e, false, k) == 0,
{
    lemma_no_explicit(e);
    assert(e[k].explicit_percent is None);
}

/// With fixed sources that hold the same values at the same position, two selections from
/// the same sources and probabilities select the same record, or fail the same way.
pub proof fn lemma_fixed_selection_repeats(
    e: Seq<LoadedSource>,
    probs: Seq<u64>,
    a: FortuneRng,
    b: FortuneRng,
    r1: Result<FortuneSelection, EngineError>,
    r2: Result<FortuneSelection, EngineError>,
)
    requires
        a.is_fixed(),
        b.is_fixed(),
        a.values() == b.values(),
        a.position() == b.position(),
        selection_is(e, probs, a.upcoming(0), a.upcoming(1), r1),
        selection_is(e, probs, b.upcoming(0), b.upcoming(1), r2),
    ensures
        r1 is Ok <==> r2 is Ok,
        r1 matches Ok(s1) ==> r2 matches Ok(s2) && s1.source_path@ == s2.source_path@
            && s1.record_index == s2.record_index && s1.text@ == s2.text@,
        r1 is Err ==> r1 == r2,
{
}

/// Whether every source's candidates come in strictly increasing order.
pub open spec fn candidates_increasing(entries: Seq<LoadedSource>) -> bool {
    forall|s: int, a: int, b: int|
        0 <= s < entries.len() && 0 <= a < b < entries[s].candidate_indices@.len() ==> #[trigger] entries[s].candidate_indices@[a]
            < #[trigger] entries[s].candidate_indices@[b]
}

/// The matches within one source all carry that source, in strictly increasing record order,
/// below every candidate not yet scanned.
proof fn lemma_source_matches_order(e: LoadedSource, src: int, pattern: TextPattern, m: int)
    requires
        0 <= m <= e.candidate_indices@.len(),
        forall|a: int, b: int|
            0 <= a < b < e.candidate_indices@.len() ==> #[trigger] e.candidate_indices@[a]
                < #[trigger] e.candidate_indices@[b],
    ensures
        source_matches(e, src, pattern, m) matches Ok(ms) ==> {
            &&& forall|k: int| 0 <= k < ms.len() ==> (#[trigger] ms[k]).0 == src
            &&& forall|a: int, b: int| 0 <= a < b < ms.len() ==> (#[trigger] ms[a]).1 < (#[trigger] ms[b]).1
            &&& forall|k: int, j: int|
                0 <= k < ms.len() && m <= j < e.candidate_indices@.len() ==> (#[trigger] ms[k]).1
                    < #[trigger] e.candidate_indices@[j]
        },
    decreases m,
{
    if m > 0 {
        lemma_source_matches_order(e, src, pattern, m - 1);
    }
}

/// The scan yields its matches in source order, and within a source in increasing record
/// order, whenever each source's candidates are increasing (as loading makes them).
pub proof fn lemma_scan_order(entries: Seq<LoadedSource>, pattern: TextPattern, n: int)
    requires
        0 <= n <= entries.len(),
        candidates_increasing(entries),
    ensures
        scan_upto(entries, pattern, n) matches Ok(ms) ==> {
            &&& forall|k: int| 0 <= k < ms.len() ==> 0 <= (#[trigger] ms[k]).0 < n
            &&& forall|a: int, b: int|
                0 <= a < b < ms.len() ==> (#[trigger] ms[a]).0 < (#[trigger] ms[b]).0 || (ms[a].0
                    == ms[b].0 && ms[a].1 < ms[b].1)
        },
    decreases n,
{
    if n > 0 {
        lemma_scan_order(entries, pattern, n - 1);
        let e = entries[n - 1];
        assert forall|a: int, b: int|
            0 <= a < b < e.candidate_indices@.len() implies #[trigger] e.candidate_indices@[a]
                < #[trigger] e.candidate_indices@[b] by {
            assert(entries[n - 1].candidate_indices@[a] < entries[n - 1].candidate_indices@[b]);
        }
        lemma_source_matches_order(e, n - 1, pattern, e.candidate_indices@.len() as int);
        if let Ok(acc) = scan_upto(entries, pattern, n - 1) {
            if let Ok(ms) = source_matches(e, n - 1, pattern, e.candidate_indices@.len() as int) {
                let all = acc + ms;
                assert forall|a: int, b: int|
                    0 <= a < b < all.len() implies (#[trigger] all[a]).0 < (#[trigger] all[b]).0
                        || (all[a].0 == all[b].0 && all[a].1 < all[b].1) by {
                    if b >= acc.len() && a >= acc.len() {
                        assert(all[a] == ms[a - acc.len()]);
                        assert(all[b] == ms[b - acc.len()]);
                    } else if b >= acc.len() {
                        assert(all[a] == acc[a]);
                        assert(all[b] == ms[b - acc.len()]);
                    } else {
                        assert(all[a] == acc[a]);
                        assert(all[b] == acc[b]);
                    }
                }
                assert forall|k: int| 0 <= k < all.len() implies 0 <= (#[trigger] all[k]).0 < n by {
                    if k >= acc.len() {
                        assert(all[k] == ms[k - acc.len()]);
                    } else {
                        assert(all[k] == acc[k]);
                    }
                }
            }
        }
    }
}

/// The least pause after printing a record, in seconds.
pub const MIN_WAIT_SECONDS: usize = 6;

/// The reading speed that paces output, in characters per second.
pub const CHARS_PER_SECOND: usize = 20;

/// How long to pause after printing `text`: its characters at the reading speed, rounded up,
/// and never less than the least pause.
pub fn wait_seconds_for_text(text: &str) -> (r: usize)
    ensures
        r == if (text@.len() + CHARS_PER_SECOND - 1) / CHARS_PER_SECOND as int > MIN_WAIT_SECONDS {
            (text@.len() + CHARS_PER_SECOND - 1) / CHARS_PER_SECOND as int
        } else {
            MIN_WAIT_SECONDS as int
        },
{
    let chars = text.unicode_len();
    let secs = chars / CHARS_PER_SECOND + if chars % CHARS_PER_SECOND == 0 {
        0
    } else {
        1
    };
    if secs > MIN_WAIT_SECONDS {
        secs
    } else {
        MIN_WAIT_SECONDS
    }
}

} // verus!
