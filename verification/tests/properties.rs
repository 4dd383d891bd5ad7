use small_bwt::decode_bwt;
use small_bwt::verify_terminator;
use small_bwt::BwtBuilder;
use small_bwt::BwtError;
use small_bwt::CutGenerator;
use small_bwt::MsdRadixSorter;

fn encode_with(text: &[u8], chunk_size: Option<usize>) -> Vec<u8> {
    let builder = BwtBuilder::new(text).unwrap();
    let builder = match chunk_size {
        Some(c) => builder.chunk_size(c).unwrap(),
        None => builder,
    };
    let mut bwt = vec![];
    builder.build(&mut bwt);
    bwt
}

#[test]
fn round_trip_various_texts() {
    let texts: Vec<&[u8]> = vec![
        b"abracadabra$",
        b"mississippi$",
        b"banana\0",
        b"aaaaaaaa\t",
        b"the quick brown fox jumps over the lazy dog\0",
        b"b$",
    ];
    for text in texts {
        assert!(verify_terminator(text).is_ok());
        let bwt = encode_with(text, None);
        let decoded = decode_bwt(&bwt).unwrap();
        assert_eq!(decoded, text.to_vec());
    }
}

#[test]
fn length_preserved_by_encode_and_decode() {
    let text = b"compressible compressible compressible\0";
    let bwt = encode_with(text, None);
    assert_eq!(bwt.len(), text.len());
    let decoded = decode_bwt(&bwt).unwrap();
    assert_eq!(decoded.len(), bwt.len());
}

#[test]
fn chunk_size_does_not_change_output() {
    let text = b"abracadabra abracadabra abracadabra\0";
    let reference = encode_with(text, None);
    assert_eq!(encode_with(text, Some(1)), reference);
    assert_eq!(encode_with(text, Some(text.len())), reference);
    assert_eq!(encode_with(text, Some(7)), reference);
    assert_eq!(encode_with(text, Some(usize::MAX)), reference);
}

#[test]
fn cuts_start_empty_and_strictly_increase() {
    let text = b"abracadabra$";
    for chunk_size in [1, 3, 5, 100] {
        let cuts = CutGenerator::generate(text, chunk_size);
        assert!(!cuts.is_empty());
        assert!(cuts[0].is_empty());
        for q in 1..cuts.len() {
            assert!(cuts[q - 1] < cuts[q]);
        }
    }
}

#[test]
fn sorter_matches_direct_comparison_sort() {
    let text = b"mississippi river runs\0";
    let subsets: Vec<Vec<usize>> = vec![
        (0..text.len()).collect(),
        vec![0, 2, 4, 6, 8, 10],
        vec![21, 1, 13, 5],
        vec![3],
        vec![],
    ];
    for offsets in subsets {
        for threshold in [1, 2, 16, 256] {
            let sorted = MsdRadixSorter::sort(text, offsets.clone(), threshold);
            let mut expected = offsets.clone();
            expected.sort_by(|&a, &b| text[a..].cmp(&text[b..]).then(a.cmp(&b)));
            assert_eq!(sorted, expected);
        }
    }
}

#[test]
fn scenario_known_transform_for_each_chunk_size() {
    let text = "abracadabra$";
    for chunk_size in [None, Some(3), Some(4)] {
        let bwt = encode_with(text.as_bytes(), chunk_size);
        assert_eq!(String::from_utf8_lossy(&bwt), "ard$rcaaaabb");
    }
}

#[test]
fn scenario_single_byte_text() {
    let text = b"\0";
    let bwt = encode_with(text, None);
    assert_eq!(bwt, b"\0".to_vec());
    let decoded = decode_bwt(b"\0").unwrap();
    assert_eq!(decoded, b"\0".to_vec());
}

#[test]
fn scenario_decode_known_transform() {
    let decoded = decode_bwt(b"ard$rcaaaabb").unwrap();
    assert_eq!(decoded, b"abracadabra$".to_vec());
}

#[test]
fn scenario_decode_rejects_doubled_terminator() {
    let e = decode_bwt(b"ard$rcaaa$bb");
    assert_eq!(e.unwrap_err(), BwtError::InvalidBwt);
}

#[test]
fn scenario_verify_terminator_placement() {
    assert_eq!(
        verify_terminator(b"abrac$dabra$").unwrap_err(),
        BwtError::TerminatorMisplaced
    );
    assert!(verify_terminator(b"abracadabra$").is_ok());
}

#[test]
fn error_variants_have_exact_causes() {
    assert_eq!(BwtBuilder::new(b"").err().unwrap(), BwtError::EmptyText);
    assert_eq!(
        BwtBuilder::new(b"ab\0").unwrap().chunk_size(0).err().unwrap(),
        BwtError::ZeroChunkSize
    );
    assert_eq!(verify_terminator(b"").unwrap_err(), BwtError::EmptyText);
    assert_eq!(decode_bwt(b"").unwrap_err(), BwtError::InvalidBwt);
}

#[test]
fn verbosity_toggle_leaves_output_alone() {
    let text = b"peter piper picked a peck\0";
    let mut quiet = vec![];
    BwtBuilder::new(text).unwrap().build(&mut quiet);
    let mut loud = vec![];
    BwtBuilder::new(text).unwrap().verbose(true).build(&mut loud);
    assert_eq!(quiet, loud);
}

#[test]
fn build_appends_after_existing_bytes() {
    let text = b"abracadabra$";
    let mut out = vec![9u8, 8u8];
    BwtBuilder::new(text).unwrap().build(&mut out);
    assert_eq!(&out[..2], &[9u8, 8u8]);
    assert_eq!(String::from_utf8_lossy(&out[2..]), "ard$rcaaaabb");
}

#[test]
fn round_trip_longer_repetitive_text() {
    let mut text = Vec::new();
    for i in 0..600usize {
        text.push(b'a' + (i % 3) as u8);
        if i % 7 == 0 {
            text.push(b'z');
        }
    }
    text.push(b'\0');
    assert!(verify_terminator(&text).is_ok());
    for chunk_size in [None, Some(1), Some(16), Some(text.len())] {
        let bwt = encode_with(&text, chunk_size);
        assert_eq!(bwt.len(), text.len());
        assert_eq!(decode_bwt(&bwt).unwrap(), text);
    }
}
