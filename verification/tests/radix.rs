use small_bwt::MsdRadixSorter;

#[test]
fn test_msd_radix_sorter_1() {
    let text = b"abracadabra$";
    let suffixes = (0..text.len()).collect();
    let suffixes = MsdRadixSorter::sort(text, suffixes, 1);
    assert_eq!(suffixes, vec![11, 10, 7, 0, 3, 5, 8, 1, 4, 6, 9, 2]);
}

#[test]
fn test_msd_radix_sorter_2() {
    let text = b"abracadabra$";
    let suffixes = (0..text.len()).collect();
    let suffixes = MsdRadixSorter::sort(text, suffixes, 2);
    assert_eq!(suffixes, vec![11, 10, 7, 0, 3, 5, 8, 1, 4, 6, 9, 2]);
}

#[test]
fn test_msd_radix_sorter_4() {
    let text = b"abracadabra$";
    let suffixes = (0..text.len()).collect();
    let suffixes = MsdRadixSorter::sort(text, suffixes, 4);
    assert_eq!(suffixes, vec![11, 10, 7, 0, 3, 5, 8, 1, 4, 6, 9, 2]);
}

#[test]
fn test_msd_radix_sorter_part_1() {
    let text = b"abracadabra$";
    let suffixes = vec![1, 3, 4, 7, 10];
    let suffixes = MsdRadixSorter::sort(text, suffixes, 1);
    assert_eq!(suffixes, vec![10, 7, 3, 1, 4]);
}

#[test]
fn test_msd_radix_sorter_part_2() {
    let text = b"abracadabra$";
    let suffixes = vec![1, 3, 4, 7, 10];
    let suffixes = MsdRadixSorter::sort(text, suffixes, 2);
    assert_eq!(suffixes, vec![10, 7, 3, 1, 4]);
}
