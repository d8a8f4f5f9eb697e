//! The binary offset index and a corpus bound to its index.
//!
//! Layout, all integers big-endian: `version numstr longlen shortlen flags` as four bytes each,
//! the delimiter byte, three zero bytes of padding, then `numstr` four-byte record offsets.
use vstd::prelude::*;

use crate::lines::{
    CR, LF, first_delimiter_from, lemma_first_delimiter_bounds,
    lemma_first_delimiter_step, lemma_line_end, locate_end, scan_line,
};

verus! {

/// Version written into every index this library builds.
pub const STRFILE_VERSION: u32 = 2;

/// Flag bit: offsets were shuffled.
pub const STR_RANDOM: u32 = 0x1;

/// Flag bit: offsets were sorted by record text.
pub const STR_ORDERED: u32 = 0x2;

/// Flag bit: records are rotated text (kept on a round trip, not otherwise used).
pub const STR_ROTATED: u32 = 0x4;

/// Size of the fixed header.
pub const HEADER_BYTES: usize = 24;

/// The fixed header of an index.
#[derive(Debug, Clone, Copy, PartialEq, Eq)]
pub struct DatHeader {
    pub version: u32,
    /// The number of records, which is the number of offsets.
    pub numstr: u32,
    /// The byte length of the longest record.
    pub longlen: u32,
    /// The byte length of the shortest record.
    pub shortlen: u32,
    /// `STR_RANDOM`, `STR_ORDERED` and `STR_ROTATED` bits.
    pub flags: u32,
    /// The byte whose line separates records.
    pub delim: u8,
}

/// A decoded index: the header and one start offset per record.
#[derive(Debug, Clone, PartialEq, Eq)]
pub struct DatFile {
    pub header: DatHeader,
    pub offsets: Vec<u32>,
}

/// A half-open byte range `[start, end)` of a corpus buffer.
#[derive(Debug, Clone, Copy, PartialEq, Eq)]
pub struct RecordSpan {
    pub start: usize,
    pub end: usize,
}

/// Spans as `(start, end)` pairs.
pub open spec fn spans_view(s: Seq<RecordSpan>) -> Seq<(int, int)> {
    s.map_values(|x: RecordSpan| (x.start as int, x.end as int))
}

/// Which records pass, by their byte length.
#[derive(Debug, Clone, Copy, PartialEq, Eq)]
pub enum LengthFilter {
    /// Every record.
    Any,
    /// Records no longer than the threshold.
    Short { threshold: usize },
    /// Records longer than the threshold.
    Long { threshold: usize },
}

impl LengthFilter {
    /// Whether a record of `len` bytes passes.
    pub open spec fn admits(self, len: int) -> bool {
        match self {
            LengthFilter::Any => true,
            LengthFilter::Short { threshold } => len <= threshold,
            LengthFilter::Long { threshold } => len > threshold,
        }
    }

    /// Whether a record of `len` bytes passes.
    pub fn accepts(self, len: usize) -> (r: bool)
        ensures
            r == self.admits(len as int),
    {
        match self {
            LengthFilter::Any => true,
            LengthFilter::Short { threshold } => len <= threshold,
            LengthFilter::Long { threshold } => len > threshold,
        }
    }

    /// The filter that the short-only and long-only switches select; short-only wins when both
    /// are set.
    pub fn from_switches(short_only: bool, long_only: bool, threshold: usize) -> (r: LengthFilter)
        ensures
            short_only ==> r == (LengthFilter::Short { threshold }),
            !short_only && long_only ==> r == (LengthFilter::Long { threshold }),
            !short_only && !long_only ==> r == LengthFilter::Any,
    {
        if short_only {
            LengthFilter::Short { threshold }
        } else if long_only {
            LengthFilter::Long { threshold }
        } else {
            LengthFilter::Any
        }
    }
}

/// Why a corpus, its index or one of its records cannot be used.
#[derive(Debug, Clone, Copy, PartialEq, Eq)]
pub enum FortuneError {
    /// The index bytes are malformed.
    Format(DatValidationError),
    /// An offset of the index lies past the end of the corpus.
    OffsetOutOfRange { offset: u32, file_len: usize },
    /// No record has this index.
    RecordIndexOutOfRange { index: usize },
    /// The span computed for a record is inverted or runs past the corpus.
    InvalidSpan { start: usize, end: usize, file_len: usize },
}

/// Why an index could not be decoded or encoded.
#[derive(Debug, Clone, Copy, PartialEq, Eq)]
pub enum DatValidationError {
    /// The buffer is shorter than the fixed header.
    ShorterThanHeader,
    /// The byte size of the declared offset table does not fit in `usize`.
    OffsetTableOverflow,
    /// The total byte size of the declared index does not fit in `usize`.
    SizeOverflow,
    /// The buffer holds fewer offsets than the header declares.
    MissingOffsets,
    /// More offsets than a 32-bit count can declare.
    TooManyOffsets,
    /// The header's record count differs from the number of offsets.
    CountMismatch,
}

impl DatValidationError {
    /// A one-line description of the error.
    pub fn message(&self) -> &'static str {
        match self {
            DatValidationError::ShorterThanHeader => "dat file shorter than header",
            DatValidationError::OffsetTableOverflow => "offset table size overflow",
            DatValidationError::SizeOverflow => "dat size overflow",
            DatValidationError::MissingOffsets => "dat file missing offset entries",
            DatValidationError::TooManyOffsets => "too many offsets for STRFILE u32",
            DatValidationError::CountMismatch => "header numstr does not match offset count",
        }
    }
}

/// The four big-endian bytes of `x`.
pub open spec fn be_bytes(x: u32) -> Seq<u8> {
    seq![
        (x / 0x100_0000) as u8,
        ((x / 0x1_0000) % 0x100) as u8,
        ((x / 0x100) % 0x100) as u8,
        (x % 0x100) as u8,
    ]
}

/// The big-endian integer held by the four bytes at `at`.
pub open spec fn be_u32_at(b: Seq<u8>, at: int) -> u32 {
    (b[at] as int * 0x100_0000 + b[at + 1] as int * 0x1_0000 + b[at + 2] as int * 0x100 + b[
        at + 3
    ] as int) as u32
}

/// The offset table as bytes: each offset's four big-endian bytes, in order.
pub open spec fn offsets_bytes(offsets: Seq<u32>) -> Seq<u8>
    decreases offsets.len(),
{
    if offsets.len() == 0 {
        Seq::empty()
    } else {
        offsets_bytes(offsets.drop_last()) + be_bytes(offsets.last())
    }
}

/// The fixed header as bytes, padding included.
pub open spec fn header_bytes(h: DatHeader) -> Seq<u8> {
    be_bytes(h.version) + be_bytes(h.numstr) + be_bytes(h.longlen) + be_bytes(h.shortlen)
        + be_bytes(h.flags) + seq![h.delim, 0u8, 0u8, 0u8]
}

/// The encoding of an index with header `h` and offsets `offsets`.
pub open spec fn encode(h: DatHeader, offsets: Seq<u32>) -> Seq<u8> {
    header_bytes(h) + offsets_bytes(offsets)
}

/// Why encoding fails, if it does.
pub open spec fn encode_error(h: DatHeader, offsets: Seq<u32>) -> Option<DatValidationError> {
    if offsets.len() > u32::MAX {
        Some(DatValidationError::TooManyOffsets)
    } else if h.numstr != offsets.len() {
        Some(DatValidationError::CountMismatch)
    } else {
        None
    }
}

/// The header that the first bytes of `b` declare.
pub open spec fn decoded_header(b: Seq<u8>) -> DatHeader {
    DatHeader {
        version: be_u32_at(b, 0),
        numstr: be_u32_at(b, 4),
        longlen: be_u32_at(b, 8),
        shortlen: be_u32_at(b, 12),
        flags: be_u32_at(b, 16),
        delim: b[20],
    }
}

/// The `n` offsets that follow the header in `b`.
pub open spec fn decoded_offsets(b: Seq<u8>, n: nat) -> Seq<u32> {
    Seq::new(n, |k: int| be_u32_at(b, HEADER_BYTES + 4 * k))
}

/// Why decoding `b` fails, if it does.
pub open spec fn decode_error(b: Seq<u8>) -> Option<DatValidationError> {
    if b.len() < HEADER_BYTES {
        Some(DatValidationError::ShorterThanHeader)
    } else {
        let table = 4 * be_u32_at(b, 4);
        if table > usize::MAX {
            Some(DatValidationError::OffsetTableOverflow)
        } else if HEADER_BYTES + table > usize::MAX {
            Some(DatValidationError::SizeOverflow)
        } else if b.len() < HEADER_BYTES + table {
            Some(DatValidationError::MissingOffsets)
        } else {
            None
        }
    }
}

/// A value's four big-endian bytes read back give the value.
pub proof fn lemma_be_round_trip(x: u32)
    ensures
        be_u32_at(be_bytes(x), 0) == x,
{
    let b = be_bytes(x);
    assert(x as int == (x / 0x100_0000) as u8 as int * 0x100_0000 + ((x / 0x1_0000) % 0x100) as u8
        as int * 0x1_0000 + ((x / 0x100) % 0x100) as u8 as int * 0x100 + (x % 0x100) as u8 as int)
        by (bit_vector);
}

/// The offset table holds four bytes per offset, and offset `k`'s bytes stand at `4 * k`.
pub proof fn lemma_offsets_bytes(offsets: Seq<u32>)
    ensures
        offsets_bytes(offsets).len() == 4 * offsets.len(),
        forall|k: int, j: int|
            0 <= k < offsets.len() && 0 <= j < 4 ==> #[trigger] offsets_bytes(offsets)[4 * k + j]
                == #[trigger] be_bytes(offsets[k])[j],
    decreases offsets.len(),
{
    if offsets.len() > 0 {
        let init = offsets.drop_last();
        lemma_offsets_bytes(init);
        assert forall|k: int, j: int| 0 <= k < offsets.len() && 0 <= j < 4 implies #[trigger]
            offsets_bytes(offsets)[4 * k + j] == #[trigger] be_bytes(offsets[k])[j] by {
            if k < init.len() {
                assert(init[k] == offsets[k]);
                assert(4 * k + j < 4 * init.len());
            }
        }
    }
}

/// Decoding what encoding produced gives back the same header and the same offsets, in the
/// same order, whatever that order is.
pub proof fn lemma_decode_encode(h: DatHeader, offsets: Seq<u32>)
    requires
        encode_error(h, offsets) is None,
        HEADER_BYTES + 4 * offsets.len() <= usize::MAX,
    ensures
        decode_error(encode(h, offsets)) is None,
        decoded_header(encode(h, offsets)) == h,
        decoded_offsets(encode(h, offsets), h.numstr as nat) == offsets,
{
    let b = encode(h, offsets);
    let hb = header_bytes(h);
    lemma_offsets_bytes(offsets);
    assert(hb.len() == HEADER_BYTES);
    lemma_be_round_trip(h.version);
    lemma_be_round_trip(h.numstr);
    lemma_be_round_trip(h.longlen);
    lemma_be_round_trip(h.shortlen);
    lemma_be_round_trip(h.flags);
    assert(be_u32_at(b, 0) == be_u32_at(be_bytes(h.version), 0));
    assert(be_u32_at(b, 4) == be_u32_at(be_bytes(h.numstr), 0));
    assert(be_u32_at(b, 8) == be_u32_at(be_bytes(h.longlen), 0));
    assert(be_u32_at(b, 12) == be_u32_at(be_bytes(h.shortlen), 0));
    assert(be_u32_at(b, 16) == be_u32_at(be_bytes(h.flags), 0));
    assert(decoded_header(b) == h);
    let d = decoded_offsets(b, h.numstr as nat);
    assert forall|k: int| 0 <= k < offsets.len() implies d[k] == offsets[k] by {
        let ob = offsets_bytes(offsets);
        lemma_be_round_trip(offsets[k]);
        assert(ob[4 * k + 0] == be_bytes(offsets[k])[0]);
        assert(ob[4 * k + 1] == be_bytes(offsets[k])[1]);
        assert(ob[4 * k + 2] == be_bytes(offsets[k])[2]);
        assert(ob[4 * k + 3] == be_bytes(offsets[k])[3]);
        assert(b[HEADER_BYTES + 4 * k] == ob[4 * k]);
        assert(b[HEADER_BYTES + 4 * k + 1] == ob[4 * k + 1]);
        assert(b[HEADER_BYTES + 4 * k + 2] == ob[4 * k + 2]);
        assert(b[HEADER_BYTES + 4 * k + 3] == ob[4 * k + 3]);
    }
    assert(d =~= offsets);
}

/// Decoding rejects every buffer shorter than the header, and every buffer whose header
/// declares more offsets than follow it.
pub proof fn lemma_decode_rejects_short(b: Seq<u8>)
    ensures
        b.len() < HEADER_BYTES ==> decode_error(b) == Some(DatValidationError::ShorterThanHeader),
        b.len() >= HEADER_BYTES && HEADER_BYTES + 4 * (decoded_header(b).numstr as int) > b.len()
            ==> decode_error(b) is Some,
{
}

/// Reads the big-endian integer held by the four bytes at `at`.
fn be_u32(bytes: &[u8], at: usize) -> (r: u32)
    requires
        at + 4 <= bytes@.len(),
    ensures
        r == be_u32_at(bytes@, at as int),
{
    (bytes[at] as u32) * 0x100_0000 + (bytes[at + 1] as u32) * 0x1_0000 + (bytes[at + 2] as u32)
        * 0x100 + (bytes[at + 3] as u32)
}

/// Appends the four big-endian bytes of `x`.
fn push_be_u32(out: &mut Vec<u8>, x: u32)
    ensures
        final(out)@ == old(out)@ + be_bytes(x),
{
    out.push((x / 0x100_0000) as u8);
    out.push(((x / 0x1_0000) % 0x100) as u8);
    out.push(((x / 0x100) % 0x100) as u8);
    out.push((x % 0x100) as u8);
    assert(final(out)@ =~= old(out)@ + be_bytes(x));
}

impl DatFile {
    /// Decodes an index.
    pub fn read_from_bytes(bytes: &[u8]) -> (r: Result<DatFile, DatValidationError>)
        ensures
            match decode_error(bytes@) {
                Some(e) => r == Err::<DatFile, DatValidationError>(e),
                None => r matches Ok(d) && d.header == decoded_header(bytes@) && d.offsets@
                    == decoded_offsets(bytes@, d.header.numstr as nat),
            },
    {
        if bytes.len() < HEADER_BYTES {
            return Err(DatValidationError::ShorterThanHeader);
        }
        let version = be_u32(bytes, 0);
        let numstr = be_u32(bytes, 4);
        let longlen = be_u32(bytes, 8);
        let shortlen = be_u32(bytes, 12);
        let flags = be_u32(bytes, 16);
        let delim = bytes[20];

        let expected_offsets_bytes = match (numstr as usize).checked_mul(4) {
            Some(n) => n,
            None => {
                return Err(DatValidationError::OffsetTableOverflow);
            },
        };
        let expected_total = match HEADER_BYTES.checked_add(expected_offsets_bytes) {
            Some(n) => n,
            None => {
                return Err(DatValidationError::SizeOverflow);
            },
        };
        if bytes.len() < expected_total {
            return Err(DatValidationError::MissingOffsets);
        }

        let mut offsets: Vec<u32> = Vec::new();
        let mut i: usize = 0;
        while i < numstr as usize
            invariant
                expected_total == HEADER_BYTES + 4 * numstr,
                expected_total <= bytes@.len(),
                i <= numstr,
                offsets@ == decoded_offsets(bytes@, i as nat),
            decreases numstr - i,
        {
            offsets.push(be_u32(bytes, HEADER_BYTES + 4 * i));
            i = i + 1;
            assert(offsets@ =~= decoded_offsets(bytes@, i as nat));
        }

        let header = DatHeader { version, numstr, longlen, shortlen, flags, delim };
        Ok(DatFile { header, offsets })
    }

    /// Encodes the index.
    pub fn to_bytes(&self) -> (r: Result<Vec<u8>, DatValidationError>)
        ensures
            match encode_error(self.header, self.offsets@) {
                Some(e) => r == Err::<Vec<u8>, DatValidationError>(e),
                None => r matches Ok(b) && b@ == encode(self.header, self.offsets@),
            },
    {
        if self.offsets.len() > u32::MAX as usize {
            return Err(DatValidationError::TooManyOffsets);
        }
        if self.header.numstr != self.offsets.len() as u32 {
            return Err(DatValidationError::CountMismatch);
        }

        let mut out: Vec<u8> = Vec::new();
        push_be_u32(&mut out, self.header.version);
        push_be_u32(&mut out, self.header.numstr);
        push_be_u32(&mut out, self.header.longlen);
        push_be_u32(&mut out, self.header.shortlen);
        push_be_u32(&mut out, self.header.flags);
        out.push(self.header.delim);
        out.push(0);
        out.push(0);
        out.push(0);
        assert(out@ =~= header_bytes(self.header));
        let mut i: usize = 0;
        while i < self.offsets.len()
            invariant
                i <= self.offsets@.len(),
                out@ == header_bytes(self.header) + offsets_bytes(self.offsets@.subrange(0, i as int)),
            decreases self.offsets@.len() - i,
        {
            let ghost before = out@;
            push_be_u32(&mut out, self.offsets[i]);
            i = i + 1;
            proof {
                let s = self.offsets@.subrange(0, i as int);
                assert(s.drop_last() =~= self.offsets@.subrange(0, i - 1));
                assert(out@ =~= header_bytes(self.header) + offsets_bytes(s));
            }
        }
        assert(self.offsets@.subrange(0, i as int) =~= self.offsets@);
        Ok(out)
    }
}

/// The index path that belongs to a corpus path: the corpus path with `.dat` appended.
pub fn dat_path_for_text(path: &str) -> (r: String)
    ensures
        r@ == path@ + ".dat"@,
{
    let mut out = String::from_str(path);
    out.append(".dat");
    out
}

/// What `String::from_utf8_lossy` makes of a byte sequence.
pub uninterp spec fn lossy_utf8(b: Seq<u8>) -> Seq<char>;

/// Relies on `String::from_utf8_lossy`: the text depends on the bytes alone, and no bytes give
/// no text.
#[verifier::external_body]
fn utf8_lossy(b: &[u8]) -> (r: String)
    ensures
        r@ == lossy_utf8(b@),
        b@.len() == 0 ==> r@.len() == 0,
{
    String::from_utf8_lossy(b).into_owned()
}

/// The text of a record whose span is `[start, end)`: the span's bytes, with one carriage
/// return dropped from a final CR LF.
pub open spec fn trimmed_text(b: Seq<u8>, start: int, end: int) -> Seq<u8> {
    if end - start >= 2 && b[end - 2] == CR && b[end - 1] == LF {
        b.subrange(start, end - 2).push(LF)
    } else {
        b.subrange(start, end)
    }
}

/// A corpus bound to its decoded index.
#[derive(Debug, Clone)]
pub struct FortuneFile {
    pub text_path: String,
    pub dat_path: String,
    pub dat: DatFile,
    /// The corpus text.
    pub bytes: Vec<u8>,
}

impl FortuneFile {
    /// Whether every offset lies within the corpus (an offset equal to its length is a
    /// trailing empty record).
    pub open spec fn offsets_valid(&self) -> bool {
        forall|i: int| 0 <= i < self.dat.offsets@.len() ==> self.dat.offsets@[i] <= self.bytes@.len()
    }

    /// The span of record `index`, or why it has none.
    pub open spec fn span_of(&self, index: int) -> Result<RecordSpan, FortuneError> {
        if index < 0 || index >= self.dat.offsets@.len() {
            Err(FortuneError::RecordIndexOutOfRange { index: index as usize })
        } else {
            let start = self.dat.offsets@[index];
            if start > self.bytes@.len() {
                Err(
                    FortuneError::InvalidSpan {
                        start: start as usize,
                        end: self.bytes@.len() as usize,
                        file_len: self.bytes@.len() as usize,
                    },
                )
            } else {
                Ok(
                    RecordSpan {
                        start: start as usize,
                        end: locate_end(self.bytes@, self.dat.header.delim, start as int) as usize,
                    },
                )
            }
        }
    }

    /// The text of record `index`, or why it has none.
    pub open spec fn record_of(&self, index: int) -> Result<Seq<u8>, FortuneError> {
        match self.span_of(index) {
            Ok(s) => Ok(trimmed_text(self.bytes@, s.start as int, s.end as int)),
            Err(e) => Err(e),
        }
    }

    /// The indices below `n` of the records that pass `filter`, in increasing order, or the
    /// first error met.
    pub open spec fn candidates_upto(&self, filter: LengthFilter, n: int) -> Result<
        Seq<usize>,
        FortuneError,
    >
        decreases n,
    {
        if n <= 0 {
            Ok(Seq::empty())
        } else {
            match self.candidates_upto(filter, n - 1) {
                Err(e) => Err(e),
                Ok(s) => match self.record_of(n - 1) {
                    Err(e) => Err(e),
                    Ok(t) => Ok(
                        if filter.admits(t.len() as int) {
                            s.push((n - 1) as usize)
                        } else {
                            s
                        },
                    ),
                },
            }
        }
    }

    /// Binds a corpus to the bytes of its index, which must decode and whose offsets must lie
    /// within the corpus.
    pub fn from_parts(text_path: String, dat_bytes: &[u8], bytes: Vec<u8>) -> (r: Result<
        FortuneFile,
        FortuneError,
    >)
        ensures
            decode_error(dat_bytes@) matches Some(e) ==> r == Err::<FortuneFile, FortuneError>(
                FortuneError::Format(e),
            ),
            decode_error(dat_bytes@) is None ==> match r {
                Ok(f) => {
                    &&& f.text_path@ == text_path@
                    &&& f.dat_path@ == text_path@ + ".dat"@
                    &&& f.dat.header == decoded_header(dat_bytes@)
                    &&& f.dat.offsets@ == decoded_offsets(dat_bytes@, f.dat.header.numstr as nat)
                    &&& f.bytes@ == bytes@
                    &&& f.offsets_valid()
                },
                Err(e) => {
                    &&& e is OffsetOutOfRange
                    &&& exists|i: int|
                        0 <= i < decoded_offsets(dat_bytes@, decoded_header(dat_bytes@).numstr as nat).len()
                            && #[trigger] decoded_offsets(dat_bytes@, decoded_header(dat_bytes@).numstr as nat)[i]
                            > bytes@.len()
                },
            },
    {
        let dat_path = dat_path_for_text(text_path.as_str());
        let dat = match DatFile::read_from_bytes(dat_bytes) {
            Ok(d) => d,
            Err(e) => {
                return Err(FortuneError::Format(e));
            },
        };
        let db = FortuneFile { text_path, dat_path, dat, bytes };
        match db.validate_offsets() {
            Ok(()) => Ok(db),
            Err(e) => Err(e),
        }
    }

    /// Checks that every offset lies within the corpus; the error names the first one that
    /// does not.
    pub fn validate_offsets(&self) -> (r: Result<(), FortuneError>)
        ensures
            r is Ok <==> self.offsets_valid(),
            r matches Err(e) ==> exists|i: int|
                0 <= i < self.dat.offsets@.len() && #[trigger] self.dat.offsets@[i] > self.bytes@.len()
                    && e == (FortuneError::OffsetOutOfRange {
                    offset: self.dat.offsets@[i],
                    file_len: self.bytes@.len() as usize,
                }) && forall|j: int| 0 <= j < i ==> self.dat.offsets@[j] <= self.bytes@.len(),
    {
        let file_len = self.bytes.len();
        let mut i: usize = 0;
        while i < self.dat.offsets.len()
            invariant
                file_len == self.bytes@.len(),
                i <= self.dat.offsets@.len(),
                forall|j: int| 0 <= j < i ==> self.dat.offsets@[j] <= self.bytes@.len(),
            decreases self.dat.offsets@.len() - i,
        {
            let offset = self.dat.offsets[i];
            if offset as usize > file_len {
                return Err(FortuneError::OffsetOutOfRange { offset, file_len });
            }
            i = i + 1;
        }
        Ok(())
    }

    /// The number of records.
    pub fn record_count(&self) -> (r: usize)
        ensures
            r == self.dat.offsets@.len(),
    {
        self.dat.offsets.len()
    }

    /// The span of record `index`: from its offset to the first delimiter line that follows,
    /// or to the end of the corpus.
    pub fn span(&self, index: usize) -> (r: Result<RecordSpan, FortuneError>)
        ensures
            r == self.span_of(index as int),
            r matches Ok(s) ==> s.start <= s.end <= self.bytes@.len(),
    {
        if index >= self.dat.offsets.len() {
            return Err(FortuneError::RecordIndexOutOfRange { index });
        }
        let start = self.dat.offsets[index] as usize;
        let end = match self.find_delimiter_start(start) {
            Some(p) => p,
            None => self.bytes.len(),
        };
        proof {
            lemma_first_delimiter_bounds(self.bytes@, self.dat.header.delim, start as int, start as int);
        }
        if start > end || end > self.bytes.len() {
            return Err(FortuneError::InvalidSpan { start, end, file_len: self.bytes.len() });
        }
        Ok(RecordSpan { start, end })
    }

    /// The bytes of record `index`, with one carriage return dropped from a final CR LF.
    pub fn record_bytes(&self, index: usize) -> (r: Result<Vec<u8>, FortuneError>)
        ensures
            match self.record_of(index as int) {
                Ok(t) => r matches Ok(v) && v@ == t,
                Err(e) => r == Err::<Vec<u8>, FortuneError>(e),
            },
    {
        let span = match self.span(index) {
            Ok(s) => s,
            Err(e) => {
                return Err(e);
            },
        };
        let crlf = span.end - span.start >= 2 && self.bytes[span.end - 2] == CR
            && self.bytes[span.end - 1] == LF;
        let stop = if crlf {
            span.end - 2
        } else {
            span.end
        };
        let mut out: Vec<u8> = Vec::new();
        let mut i = span.start;
        while i < stop
            invariant
                span.start <= i <= stop <= self.bytes@.len(),
                out@ == self.bytes@.subrange(span.start as int, i as int),
            decreases stop - i,
        {
            out.push(self.bytes[i]);
            i = i + 1;
            assert(out@ =~= self.bytes@.subrange(span.start as int, i as int));
        }
        if crlf {
            out.push(LF);
        }
        Ok(out)
    }

    /// The text of record `index`, with invalid UTF-8 replaced.
    pub fn record_text_lossy(&self, index: usize) -> (r: Result<String, FortuneError>)
        ensures
            match self.record_of(index as int) {
                Ok(t) => r matches Ok(s) && s@ == lossy_utf8(t),
                Err(e) => r == Err::<String, FortuneError>(e),
            },
    {
        match self.record_bytes(index) {
            Ok(b) => Ok(utf8_lossy(b.as_slice())),
            Err(e) => Err(e),
        }
    }

    /// The indices of the records whose byte length passes `filter`, in increasing order.
    pub fn candidate_indices(&self, filter: LengthFilter) -> (r: Result<Vec<usize>, FortuneError>)
        ensures
            match self.candidates_upto(filter, self.dat.offsets@.len() as int) {
                Ok(s) => r matches Ok(v) && v@ == s,
                Err(e) => r == Err::<Vec<usize>, FortuneError>(e),
            },
            r matches Ok(v) ==> forall|a: int, b: int| 0 <= a < b < v@.len() ==> v@[a] < v@[b],
    {
        let mut out: Vec<usize> = Vec::new();
        let n = self.record_count();
        let mut idx: usize = 0;
        while idx < n
            invariant
                n == self.dat.offsets@.len(),
                idx <= n,
                self.candidates_upto(filter, idx as int) == Ok::<Seq<usize>, FortuneError>(out@),
            decreases n - idx,
        {
            let len = match self.record_bytes(idx) {
                Ok(b) => b.len(),
                Err(e) => {
                    proof {
                        self.lemma_candidates_error(filter, idx as int + 1, n as int);
                    }
                    return Err(e);
                },
            };
            if filter.accepts(len) {
                out.push(idx);
            }
            idx = idx + 1;
        }
        proof {
            lemma_candidates_increasing(*self, filter, n as int);
        }
        Ok(out)
    }

    /// Once the search for candidates has failed, it stays failed with the same error.
    proof fn lemma_candidates_error(&self, filter: LengthFilter, m: int, n: int)
        requires
            1 <= m <= n,
            self.candidates_upto(filter, m) is Err,
        ensures
            self.candidates_upto(filter, n) == self.candidates_upto(filter, m),
        decreases n - m,
    {
        if m < n {
            self.lemma_candidates_error(filter, m + 1, n);
        }
    }

    /// The start of the first delimiter line at or after `start`, scanning line by line.
    fn find_delimiter_start(&self, start: usize) -> (r: Option<usize>)
        ensures
            r matches Some(p) ==> first_delimiter_from(
                self.bytes@,
                self.dat.header.delim,
                start as int,
                start as int,
            ) == Some(p as int),
            r is None ==> first_delimiter_from(
                self.bytes@,
                self.dat.header.delim,
                start as int,
                start as int,
            ) is None,
    {
        let ghost b = self.bytes@;
        let delim = self.dat.header.delim;
        let mut cursor = start;
        while cursor < self.bytes.len()
            invariant
                b == self.bytes@,
                delim == self.dat.header.delim,
                start <= cursor,
                cursor < b.len() ==> cursor == start || b[cursor - 1] == LF,
                first_delimiter_from(b, delim, start as int, start as int) == first_delimiter_from(
                    b,
                    delim,
                    start as int,
                    cursor as int,
                ),
            decreases b.len() - cursor,
        {
            let (is_delim, next) = scan_line(self.bytes.as_slice(), cursor, delim);
            if is_delim {
                return Some(cursor);
            }
            proof {
                lemma_first_delimiter_step(b, delim, start as int, cursor as int);
                lemma_line_end(b, cursor as int);
            }
            cursor = next;
        }
        None
    }
}

/// The candidates found among the first `n` records come in strictly increasing order, and
/// each is below `n`.
pub proof fn lemma_candidates_increasing(f: FortuneFile, filter: LengthFilter, n: int)
    requires
        0 <= n <= usize::MAX,
    ensures
        f.candidates_upto(filter, n) matches Ok(s) ==> {
            &&& forall|a: int, b: int| 0 <= a < b < s.len() ==> s[a] < s[b]
            &&& forall|k: int| 0 <= k < s.len() ==> s[k] < n
        },
    decreases n,
{
    if n > 0 {
        lemma_candidates_increasing(f, filter, n - 1);
        if let Ok(prev) = f.candidates_upto(filter, n - 1) {
            if let Ok(t) = f.record_of(n - 1) {
                if filter.admits(t.len() as int) {
                    let s = prev.push((n - 1) as usize);
                    assert forall|a: int, b: int| 0 <= a < b < s.len() implies s[a] < s[b] by {
                        if b == prev.len() {
                            assert(s[a] == prev[a]);
                        } else {
                            assert(s[a] == prev[a] && s[b] == prev[b]);
                        }
                    }
                    assert forall|k: int| 0 <= k < s.len() implies s[k] < n by {
                        if k < prev.len() {
                            assert(s[k] == prev[k]);
                        }
                    }
                }
            }
        }
    }
}

} // verus!
