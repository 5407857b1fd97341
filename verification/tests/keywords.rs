use wimd::document::join;
use wimd::vocab::KeywordSet;

#[test]
fn vocabulary_deduplicates_case_insensitively() {
    let mut ks = KeywordSet::new();
    let (i1, new1) = ks.insert_full(b"wimd".to_vec());
    assert_eq!((i1, new1), (0, true));
    let (i2, new2) = ks.insert_full(b"Wimd".to_vec());
    assert_eq!((i2, new2), (0, false));
    assert_eq!(ks.len(), 1);
    // the first spelling is the one kept
    assert_eq!(ks.get(0).as_slice(), b"wimd");
    // lookups find the same index under either case
    assert_eq!(ks.lookup(b"WIMD"), Some(0));
    assert_eq!(ks.lookup(b"wimd"), Some(0));
    assert_eq!(ks.lookup(b"other"), None);
}

#[test]
fn vocabulary_keeps_insertion_order_and_stable_indices() {
    let mut ks = KeywordSet::new();
    assert_eq!(ks.insert_full(b"beta".to_vec()), (0, true));
    assert_eq!(ks.insert_full(b"alpha".to_vec()), (1, true));
    assert_eq!(ks.insert_full(b"BETA".to_vec()), (0, false));
    assert_eq!(ks.insert_full(b"gamma".to_vec()), (2, true));
    assert_eq!(ks.len(), 3);
    assert_eq!(ks.get(0).as_slice(), b"beta");
    assert_eq!(ks.get(1).as_slice(), b"alpha");
    assert_eq!(ks.get(2).as_slice(), b"gamma");
}

#[test]
fn vocabulary_folds_unicode_case() {
    // Unicode case folding equates these two spellings
    let mut ks = KeywordSet::new();
    let (i1, _) = ks.insert_full("Maße".as_bytes().to_vec());
    let (i2, new2) = ks.insert_full(b"MASSE".to_vec());
    assert_eq!(i1, i2);
    assert!(!new2);
    assert_eq!(ks.len(), 1);
}

#[test]
fn join_concatenates_with_separator() {
    let parts = vec![b"a".to_vec(), b"bb".to_vec(), b"c".to_vec()];
    let sep = b"|".to_vec();
    assert_eq!(join(&parts, &sep), b"a|bb|c".to_vec());
    let empty: Vec<Vec<u8>> = Vec::new();
    assert_eq!(join(&empty, &sep), Vec::<u8>::new());
    let one = vec![b"xyz".to_vec()];
    assert_eq!(join(&one, &sep), b"xyz".to_vec());
}
