use rustune::datfile::{DatFile, STR_ORDERED, STR_RANDOM};
use rustune::rng::FortuneRng;
use rustune::strfile_builder::{
    build_dat_from_text, parse_delimiter, parse_record_spans, BuildError, BuildOptions,
};

fn no_draws() -> FortuneRng {
    FortuneRng::thread()
}

#[test]
fn parse_simple_records() {
    let text = b"one\n%\ntwo\n%\nthree\n";
    let spans = parse_record_spans(text, b'%', false);
    assert_eq!(spans.len(), 3);
    assert_eq!(&text[spans[0].start..spans[0].end], b"one\n");
    assert_eq!(&text[spans[1].start..spans[1].end], b"two\n");
    assert_eq!(&text[spans[2].start..spans[2].end], b"three\n");
}

#[test]
fn build_generates_offsets() {
    let text = b"alpha\n%\nbeta\n";
    let (dat, stats) =
        build_dat_from_text(text, BuildOptions::default(), &mut no_draws()).expect("build dat");
    assert_eq!(stats.record_count, 2);
    assert_eq!(dat.offsets, vec![0, 8]);
}

#[test]
fn build_fills_header_and_stats() {
    let (dat, stats) =
        build_dat_from_text(b"alpha\n%\nbeta\n", BuildOptions::default(), &mut no_draws())
            .expect("build");
    assert_eq!(stats.shortest_record, 5);
    assert_eq!(stats.longest_record, 6);
    assert_eq!(dat.header.version, 2);
    assert_eq!(dat.header.numstr, 2);
    assert_eq!(dat.header.longlen, 6);
    assert_eq!(dat.header.shortlen, 5);
    assert_eq!(dat.header.flags, 0);
    assert_eq!(dat.header.delim, b'%');
}

#[test]
fn generated_records_get_one_increasing_offset_each() {
    let lists: Vec<Vec<&str>> = vec![
        vec!["x"],
        vec!["Hello, world!", "a b c", "?"],
        vec!["50.5", "no. 7", "ok!", "Zz", "1", "2", "3", "4", "5", "6"],
        (0..30).map(|_| "same text").collect(),
    ];
    for records in lists {
        let mut text = Vec::new();
        for (idx, record) in records.iter().enumerate() {
            text.extend_from_slice(record.as_bytes());
            text.push(b'\n');
            if idx + 1 != records.len() {
                text.extend_from_slice(b"%\n");
            }
        }
        let (dat, stats) =
            build_dat_from_text(&text, BuildOptions::default(), &mut no_draws()).expect("build");
        assert_eq!(stats.record_count, records.len());
        assert_eq!(dat.offsets.len(), records.len());
        assert!(dat.offsets.windows(2).all(|w| w[0] < w[1]));
        let decoded = DatFile::read_from_bytes(&dat.to_bytes().unwrap()).expect("decode");
        assert_eq!(decoded.offsets, dat.offsets);
        assert_eq!(decoded.header.numstr, records.len() as u32);
    }
}

#[test]
fn delimiter_lines_need_exact_content() {
    let text = b"a\n%%\nb\n %\nc\n%\r\nd\n%";
    let spans = parse_record_spans(text, b'%', false);
    let got: Vec<&[u8]> = spans.iter().map(|s| &text[s.start..s.end]).collect();
    assert_eq!(got, vec![&b"a\n%%\nb\n %\nc\n"[..], &b"d\n"[..]]);
}

#[test]
fn empty_records_kept_only_when_allowed() {
    let text = b"%\n%\n";
    let kept = parse_record_spans(text, b'%', true);
    let got: Vec<(usize, usize)> = kept.iter().map(|s| (s.start, s.end)).collect();
    assert_eq!(got, vec![(0, 0), (2, 2), (4, 4)]);
    assert!(parse_record_spans(text, b'%', false).is_empty());
    assert_eq!(
        build_dat_from_text(text, BuildOptions::default(), &mut no_draws()),
        Err(BuildError::NoRecords)
    );
    assert_eq!(
        build_dat_from_text(b"", BuildOptions::default(), &mut no_draws()),
        Err(BuildError::NoRecords)
    );
}

#[test]
fn other_delimiter() {
    let spans = parse_record_spans(b"a\n#\nb\n%\n", b'#', false);
    let got: Vec<(usize, usize)> = spans.iter().map(|s| (s.start, s.end)).collect();
    assert_eq!(got, vec![(0, 2), (4, 8)]);
}

#[test]
fn order_and_random_together_are_rejected() {
    let opts = BuildOptions {
        order_offsets: true,
        randomize_offsets: true,
        ..BuildOptions::default()
    };
    let mut rng = FortuneRng::fixed(vec![3]);
    assert_eq!(
        build_dat_from_text(b"a\n%\nb\n", opts, &mut rng),
        Err(BuildError::ConflictingOrder)
    );
    assert_eq!(
        build_dat_from_text(b"", opts, &mut rng),
        Err(BuildError::ConflictingOrder)
    );
    assert_eq!(rng.next_u64(), 3);
}

#[test]
fn ordered_offsets_follow_record_text() {
    let opts = BuildOptions {
        order_offsets: true,
        ..BuildOptions::default()
    };
    let (dat, _) =
        build_dat_from_text(b"b\n%\na\n%\nc\n%\nab\n", opts, &mut no_draws()).expect("build");
    assert_eq!(dat.offsets, vec![4, 12, 0, 8]);
    assert_eq!(dat.header.flags, STR_ORDERED);
}

#[test]
fn shuffled_offsets_with_fixed_draws() {
    let opts = BuildOptions {
        randomize_offsets: true,
        ..BuildOptions::default()
    };
    let mut rng = FortuneRng::fixed(vec![0]);
    let (dat, _) = build_dat_from_text(b"b\n%\na\n%\nc\n", opts, &mut rng).expect("build");
    assert_eq!(dat.offsets, vec![4, 8, 0]);
    assert_eq!(dat.header.flags, STR_RANDOM);

    let mut rng = FortuneRng::seeded(7);
    let (dat, _) = build_dat_from_text(b"b\n%\na\n%\nc\n", opts, &mut rng).expect("build");
    let mut sorted = dat.offsets.clone();
    sorted.sort();
    assert_eq!(sorted, vec![0, 4, 8]);
}

#[test]
fn delimiter_argument() {
    assert_eq!(parse_delimiter("%"), Some(b'%'));
    assert_eq!(parse_delimiter("%%"), None);
    assert_eq!(parse_delimiter(""), None);
    assert_eq!(parse_delimiter("é"), None);
}

#[test]
fn equal_records_keep_corpus_order_when_sorted() {
    let opts = BuildOptions {
        order_offsets: true,
        ..BuildOptions::default()
    };
    let (dat, _) =
        build_dat_from_text(b"b\n%\na\n%\nb\n%\na\n", opts, &mut no_draws()).expect("build");
    assert_eq!(dat.offsets, vec![4, 12, 0, 8]);
}

#[test]
fn sorted_offsets_match_a_stable_sort() {
    let mut text = Vec::new();
    let mut starts = Vec::new();
    let mut x: u32 = 12345;
    for i in 0..300 {
        if i > 0 {
            text.extend_from_slice(b"%\n");
        }
        starts.push(text.len() as u32);
        x = x.wrapping_mul(1103515245).wrapping_add(12345);
        let len = 1 + (x >> 16) % 4;
        for k in 0..len {
            text.push(b'a' + ((x >> (k * 3)) % 3) as u8);
        }
        text.push(b'\n');
    }
    let record = |start: u32| -> Vec<u8> {
        let s = start as usize;
        let end = text[s..].iter().position(|b| *b == b'\n').unwrap() + s + 1;
        text[s..end].to_vec()
    };
    let mut expected = starts.clone();
    expected.sort_by_key(|s| record(*s));
    let opts = BuildOptions {
        order_offsets: true,
        ..BuildOptions::default()
    };
    let (dat, stats) = build_dat_from_text(&text, opts, &mut no_draws()).expect("build");
    assert_eq!(stats.record_count, 300);
    assert_eq!(dat.offsets, expected);
}
