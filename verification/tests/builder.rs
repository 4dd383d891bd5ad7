use small_bwt::bwt_from_cuts;
use small_bwt::decode_bwt;
use small_bwt::symbol_freqs;
use small_bwt::verify_terminator;
use small_bwt::BwtBuilder;

#[test]
fn test_bwt_builder() {
    let text = "abracadabra$";
    let mut bwt = vec![];
    BwtBuilder::new(text.as_bytes()).unwrap().build(&mut bwt);
    let bwt_str = String::from_utf8_lossy(&bwt);
    assert_eq!(bwt_str, "ard$rcaaaabb");
}

#[test]
fn test_bwt_builder_3() {
    let text = "abracadabra$";
    let mut bwt = vec![];
    BwtBuilder::new(text.as_bytes())
        .unwrap()
        .chunk_size(3)
        .unwrap()
        .build(&mut bwt);
    let bwt_str = String::from_utf8_lossy(&bwt);
    assert_eq!(bwt_str, "ard$rcaaaabb");
}

#[test]
fn test_bwt_builder_4() {
    let text = "abracadabra$";
    let mut bwt = vec![];
    BwtBuilder::new(text.as_bytes())
        .unwrap()
        .chunk_size(4)
        .unwrap()
        .build(&mut bwt);
    let bwt_str = String::from_utf8_lossy(&bwt);
    assert_eq!(bwt_str, "ard$rcaaaabb");
}

#[test]
fn test_bwt_builder_empty() {
    let text = "";
    let e = BwtBuilder::new(text.as_bytes());
    assert!(e.is_err());
}

#[test]
fn test_bwt_from_cuts_3() {
    let text = b"abracadabra$";
    let cuts = &[
        b"".to_vec(),
        b"a$".to_vec(),
        b"ac".to_vec(),
        b"b".to_vec(),
        b"d".to_vec(),
        b"r".to_vec(),
    ];
    let mut bwt = vec![];
    bwt_from_cuts(text, cuts, &mut bwt);
    let bwt_str = String::from_utf8_lossy(&bwt);
    assert_eq!(bwt_str, "ard$rcaaaabb");
}

#[test]
fn test_bwt_from_cuts_4() {
    let text = b"abracadabra$";
    let cuts = &[b"".to_vec(), b"ab".to_vec(), b"b".to_vec(), b"r".to_vec()];
    let mut bwt = vec![];
    bwt_from_cuts(text, cuts, &mut bwt);
    let bwt_str = String::from_utf8_lossy(&bwt);
    assert_eq!(bwt_str, "ard$rcaaaabb");
}

#[test]
fn test_symbol_freqs() {
    let text = b"abracadabra$";
    let cut = b"ra";
    let freqs = symbol_freqs(text, cut);
    let mut expected = vec![0; 256];
    expected[b'$' as usize] = 1;
    expected[b'c' as usize] = 1;
    assert_eq!(freqs, expected);
}

#[test]
fn test_symbol_freqs_empty() {
    let text = b"abracadabra$";
    let cut = b"";
    let freqs = symbol_freqs(text, cut);
    let mut expected = vec![0; 256];
    expected[b'$' as usize] = 1;
    expected[b'a' as usize] = 5;
    expected[b'b' as usize] = 2;
    expected[b'c' as usize] = 1;
    expected[b'd' as usize] = 1;
    expected[b'r' as usize] = 2;
    assert_eq!(freqs, expected);
}

#[test]
fn test_verify_terminator_empty() {
    let text = "";
    let e = verify_terminator(text.as_bytes());
    assert!(e.is_err());
}

#[test]
fn test_decode_bwt_single() {
    let bwt = "$";
    let decoded = decode_bwt(bwt.as_bytes()).unwrap();
    assert_eq!(decoded, "$".as_bytes());
}

#[test]
fn test_decode_bwt_empty() {
    let bwt = "";
    let e = decode_bwt(bwt.as_bytes());
    assert!(e.is_err());
}

#[test]
fn test_decode_bwt_invalid_terminator() {
    let bwt = "ard$rcaaa$bb";
    let e = decode_bwt(bwt.as_bytes());
    assert!(e.is_err());
}
