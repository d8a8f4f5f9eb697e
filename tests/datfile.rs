use rustune::datfile::{
    dat_path_for_text, DatFile, DatHeader, DatValidationError, FortuneError, FortuneFile,
    LengthFilter, HEADER_BYTES, STRFILE_VERSION, STR_ORDERED, STR_ROTATED,
};
use rustune::rng::FortuneRng;
use rustune::strfile_builder::{build_dat_from_text, BuildOptions};

fn index_bytes(text: &[u8]) -> Vec<u8> {
    let mut rng = FortuneRng::thread();
    let (dat, _) = build_dat_from_text(text, BuildOptions::default(), &mut rng).expect("build");
    dat.to_bytes().expect("encode")
}

fn open(text: &[u8]) -> FortuneFile {
    FortuneFile::from_parts("sample".to_string(), &index_bytes(text), text.to_vec())
        .expect("open")
}

#[test]
fn dat_round_trip() {
    let dat = DatFile {
        header: DatHeader {
            version: STRFILE_VERSION,
            numstr: 3,
            longlen: 20,
            shortlen: 4,
            flags: STR_ORDERED,
            delim: b'%',
        },
        offsets: vec![0, 12, 40],
    };

    let bytes = dat.to_bytes().expect("encode");
    let decoded = DatFile::read_from_bytes(&bytes).expect("decode");
    assert_eq!(decoded, dat);
}

#[test]
fn encoding_is_big_endian_with_zero_padding() {
    let dat = DatFile {
        header: DatHeader {
            version: 2,
            numstr: 2,
            longlen: 0x0102_0304,
            shortlen: 5,
            flags: STR_ROTATED,
            delim: b'#',
        },
        offsets: vec![0x0a0b_0c0d, 7],
    };
    let bytes = dat.to_bytes().expect("encode");
    assert_eq!(
        bytes,
        vec![
            0, 0, 0, 2, 0, 0, 0, 2, 1, 2, 3, 4, 0, 0, 0, 5, 0, 0, 0, 4, b'#', 0, 0, 0, 0x0a,
            0x0b, 0x0c, 0x0d, 0, 0, 0, 7
        ]
    );
}

#[test]
fn round_trip_keeps_unsorted_offsets() {
    let dat = DatFile {
        header: DatHeader {
            version: 2,
            numstr: 4,
            longlen: 9,
            shortlen: 1,
            flags: 0x7,
            delim: b'%',
        },
        offsets: vec![40, 0, 4_000_000_000, 12],
    };
    let bytes = dat.to_bytes().expect("encode");
    assert_eq!(bytes.len(), HEADER_BYTES + 16);
    assert_eq!(DatFile::read_from_bytes(&bytes).expect("decode"), dat);
}

#[test]
fn decode_ignores_padding_and_trailing_bytes() {
    let mut bytes = vec![0, 0, 0, 2, 0, 0, 0, 1, 0, 0, 0, 3, 0, 0, 0, 3, 0, 0, 0, 0, b'%', 9, 9, 9];
    bytes.extend_from_slice(&[0, 0, 0, 5, 0xff]);
    let dat = DatFile::read_from_bytes(&bytes).expect("decode");
    assert_eq!(dat.header.numstr, 1);
    assert_eq!(dat.header.delim, b'%');
    assert_eq!(dat.offsets, vec![5]);
}

#[test]
fn decode_rejects_buffer_shorter_than_header() {
    for len in 0..HEADER_BYTES {
        let bytes = vec![0u8; len];
        assert_eq!(
            DatFile::read_from_bytes(&bytes),
            Err(DatValidationError::ShorterThanHeader)
        );
    }
}

#[test]
fn decode_rejects_missing_offsets() {
    let mut bytes = vec![0u8; HEADER_BYTES];
    bytes[7] = 2;
    bytes.extend_from_slice(&[0, 0, 0, 1, 0, 0, 0]);
    assert_eq!(
        DatFile::read_from_bytes(&bytes),
        Err(DatValidationError::MissingOffsets)
    );
    let mut huge = vec![0u8; HEADER_BYTES];
    huge[4] = 0xff;
    assert!(DatFile::read_from_bytes(&huge).is_err());
}

#[test]
fn encode_rejects_count_mismatch() {
    let dat = DatFile {
        header: DatHeader {
            version: 2,
            numstr: 2,
            longlen: 0,
            shortlen: 0,
            flags: 0,
            delim: b'%',
        },
        offsets: vec![0],
    };
    assert_eq!(dat.to_bytes(), Err(DatValidationError::CountMismatch));
    assert_eq!(
        DatValidationError::CountMismatch.message(),
        "header numstr does not match offset count"
    );
}

#[test]
fn dat_path_appends_suffix() {
    assert_eq!(dat_path_for_text("/usr/share/fortune/art"), "/usr/share/fortune/art.dat");
}

#[test]
fn build_dat_and_reopen_records() {
    let text = b"first fortune\n%\nsecond fortune\n";
    let mut rng = FortuneRng::thread();
    let (dat, stats) = build_dat_from_text(text, BuildOptions::default(), &mut rng).expect("build");
    assert_eq!(stats.record_count, 2);
    let opened = FortuneFile::from_parts("sample".to_string(), &dat.to_bytes().unwrap(), text.to_vec())
        .expect("open fortune file");
    assert_eq!(opened.record_count(), 2);
    assert_eq!(opened.dat_path, "sample.dat");
    assert_eq!(opened.record_text_lossy(0).expect("record 0"), "first fortune\n");
    assert_eq!(opened.record_text_lossy(1).expect("record 1"), "second fortune\n");
}

#[test]
fn open_rejects_bad_index() {
    let err = FortuneFile::from_parts("x".to_string(), &[0u8; 3], b"a\n".to_vec()).unwrap_err();
    assert_eq!(err, FortuneError::Format(DatValidationError::ShorterThanHeader));

    let index = index_bytes(b"a\n%\nb\n");
    let err = FortuneFile::from_parts("x".to_string(), &index, b"a\n".to_vec()).unwrap_err();
    assert_eq!(err, FortuneError::OffsetOutOfRange { offset: 4, file_len: 2 });
}

#[test]
fn offset_at_end_is_an_empty_record() {
    let dat = DatFile {
        header: DatHeader {
            version: 2,
            numstr: 1,
            longlen: 0,
            shortlen: 0,
            flags: 0,
            delim: b'%',
        },
        offsets: vec![2],
    };
    let f = FortuneFile::from_parts("x".to_string(), &dat.to_bytes().unwrap(), b"a\n".to_vec())
        .expect("open");
    assert_eq!(f.record_bytes(0).expect("record"), Vec::<u8>::new());
}

#[test]
fn record_errors() {
    let mut f = open(b"a\n%\nb\n");
    assert_eq!(f.span(2), Err(FortuneError::RecordIndexOutOfRange { index: 2 }));
    f.dat.offsets[1] = 99;
    assert_eq!(
        f.record_bytes(1),
        Err(FortuneError::InvalidSpan { start: 99, end: 6, file_len: 6 })
    );
    assert!(f.candidate_indices(LengthFilter::Any).is_err());
}

#[test]
fn span_stops_at_next_delimiter_line() {
    let f = open(b"one\n%\ntwo\nlines\n%\nthree");
    let s = f.span(1).expect("span");
    assert_eq!((s.start, s.end), (6, 16));
    let s = f.span(2).expect("span");
    assert_eq!((s.start, s.end), (18, 23));
}

#[test]
fn crlf_records_drop_final_carriage_return() {
    let text = b"one\r\n%\r\ntwo\r\nmore\r\n";
    let f = open(text);
    assert_eq!(f.dat.offsets, vec![0, 8]);
    assert_eq!(f.record_bytes(0).expect("record"), b"one\n".to_vec());
    assert_eq!(f.record_bytes(1).expect("record"), b"two\r\nmore\n".to_vec());
}

#[test]
fn lossy_text_replaces_invalid_utf8() {
    let f = open(b"caf\xff\n%\nok\n");
    assert_eq!(f.record_text_lossy(0).expect("record"), "caf\u{FFFD}\n");
    assert_eq!(f.record_text_lossy(1).expect("record"), "ok\n");
}

#[test]
fn candidates_follow_length_filter() {
    let f = open(b"ab\n%\nabcdef\n%\nabc\n");
    assert_eq!(f.candidate_indices(LengthFilter::Any).unwrap(), vec![0, 1, 2]);
    assert_eq!(
        f.candidate_indices(LengthFilter::Short { threshold: 4 }).unwrap(),
        vec![0, 2]
    );
    assert_eq!(
        f.candidate_indices(LengthFilter::Long { threshold: 4 }).unwrap(),
        vec![1]
    );
}

#[test]
fn length_filter_accepts() {
    assert!(LengthFilter::Any.accepts(1000));
    assert!(LengthFilter::Short { threshold: 5 }.accepts(5));
    assert!(!LengthFilter::Short { threshold: 5 }.accepts(6));
    assert!(LengthFilter::Long { threshold: 5 }.accepts(6));
    assert!(!LengthFilter::Long { threshold: 5 }.accepts(5));
    assert_eq!(
        LengthFilter::from_switches(true, true, 7),
        LengthFilter::Short { threshold: 7 }
    );
    assert_eq!(
        LengthFilter::from_switches(false, true, 7),
        LengthFilter::Long { threshold: 7 }
    );
    assert_eq!(LengthFilter::from_switches(false, false, 7), LengthFilter::Any);
}
