use pymhash::error::HashError;
use pymhash::image::ImageHash;
use pymhash::orientation::OrientationHash;
use pymhash::utils::{bin_to_dec, bin_to_hex, hex_char_to_bin};

fn diagonal() -> OrientationHash {
    OrientationHash::new(vec![vec![true, false], vec![false, true]])
}

fn matrix(bits: &[bool], width: usize) -> OrientationHash {
    OrientationHash::new(bits.chunks(width).map(|r| r.to_vec()).collect())
}

#[test]
fn bin_to_dec_reads_big_endian() {
    assert_eq!(bin_to_dec(&[]), 0);
    assert_eq!(bin_to_dec(&[true, false, false, true]), 9);
    assert_eq!(bin_to_dec(&[true, true, true, true]), 15);
    assert_eq!(bin_to_dec(&[false, false, true, false, true, false]), 10);
}

#[test]
fn bin_to_hex_groups_of_four() {
    assert_eq!(bin_to_hex(vec![true, false, false, true]), "9");
    assert_eq!(
        bin_to_hex(vec![true, true, true, true, false, false, false, false, true, false, true, false]),
        "f0a"
    );
    assert_eq!(bin_to_hex(vec![]), "");
}

#[test]
fn bin_to_hex_short_last_group() {
    assert_eq!(bin_to_hex(vec![true, true, true, true, true, false]), "f2");
}

#[test]
fn hex_char_to_bin_both_cases() {
    assert_eq!(hex_char_to_bin('9').unwrap(), vec![true, false, false, true]);
    assert_eq!(hex_char_to_bin('a').unwrap(), vec![true, false, true, false]);
    assert_eq!(hex_char_to_bin('F').unwrap(), vec![true, true, true, true]);
    assert_eq!(hex_char_to_bin('0').unwrap(), vec![false, false, false, false]);
}

#[test]
fn hex_char_to_bin_rejects_other_characters() {
    assert_eq!(hex_char_to_bin('g'), Err(HashError::InvalidEncoding));
    assert_eq!(hex_char_to_bin('x'), Err(HashError::InvalidEncoding));
}

#[test]
fn diagonal_encodes_to_nine() {
    assert_eq!(diagonal().to_str(), "9");
}

#[test]
fn nine_decodes_to_diagonal() {
    let h = OrientationHash::from_str("9").unwrap();
    assert_eq!(h.hash, vec![vec![true, false], vec![false, true]]);
}

#[test]
fn decode_fills_square_rows() {
    // eight bits give rows two wide
    let h = OrientationHash::from_str("f0").unwrap();
    assert_eq!(
        h.hash,
        vec![vec![true, true], vec![true, true], vec![false, false], vec![false, false]]
    );
    // sixteen bits give rows four wide
    let h = OrientationHash::from_str("9AbC").unwrap();
    assert_eq!(h.hash.len(), 4);
    assert_eq!(h.hash[0], vec![true, false, false, true]);
    assert_eq!(h.hash[3], vec![true, true, false, false]);
    assert_eq!(h.to_str(), "9abc");
}

#[test]
fn decode_leaves_short_last_row() {
    // twelve bits give rows three wide; 3 * 4 = 12 so rows are full
    let h = OrientationHash::from_str("abc").unwrap();
    assert_eq!(h.hash.len(), 4);
    // twenty bits give rows four wide, five rows
    let h = OrientationHash::from_str("fffff").unwrap();
    assert_eq!(h.hash.len(), 5);
    // twenty-four bits give rows four wide
    let h = OrientationHash::from_str("ffffff").unwrap();
    assert_eq!(h.hash.len(), 6);
    // twenty-eight bits give rows five wide, the last one three bits long
    let h = OrientationHash::from_str("fffffff").unwrap();
    assert_eq!(h.hash.len(), 6);
    assert_eq!(h.hash[4].len(), 5);
    assert_eq!(h.hash[5].len(), 3);
}

#[test]
fn decode_empty_text() {
    let h = OrientationHash::from_str("").unwrap();
    assert!(h.hash.is_empty());
}

#[test]
fn decode_rejects_non_hex() {
    assert!(matches!(OrientationHash::from_str("9g"), Err(HashError::InvalidEncoding)));
}

#[test]
fn hash_size_counts_all_bits() {
    assert_eq!(diagonal().hash_size(), 4);
    let h = OrientationHash::new(vec![vec![true], vec![false, true, true]]);
    assert_eq!(h.hash_size(), 4);
}

#[test]
fn hamming_distance_counts_differences() {
    let a = matrix(&[true, false, true, true], 2);
    let b = matrix(&[true, true, false, true], 2);
    assert_eq!(a.hamming_distance(&b), Ok(2));
    assert_eq!(a.hamming_distance(&a), Ok(0));
}

#[test]
fn hamming_distance_is_symmetric() {
    let a = matrix(&[true, false, true, true, false, false, true, false], 4);
    let b = matrix(&[false, false, true, false, true, false, true, true], 4);
    assert_eq!(a.hamming_distance(&b), Ok(4));
    assert_eq!(b.hamming_distance(&a), Ok(4));
}

#[test]
fn hamming_distance_of_complement() {
    let bits = [true, false, true, true, false, false, true, false, true];
    let inverted: Vec<bool> = bits.iter().map(|b| !b).collect();
    let a = matrix(&bits, 3);
    let b = matrix(&inverted, 3);
    assert_eq!(a.hamming_distance(&b), Ok(9));
}

#[test]
fn hamming_distance_flattens_rows() {
    let a = OrientationHash::new(vec![vec![true, false, false, true]]);
    let b = diagonal();
    assert_eq!(a.hamming_distance(&b), Ok(0));
    assert!(a.equals(&b));
}

#[test]
fn hamming_distance_length_mismatch() {
    let a = diagonal();
    let b = matrix(&[true; 9], 3);
    assert_eq!(
        a.hamming_distance(&b),
        Err(HashError::LengthMismatch { expected: 4, actual: 9 })
    );
    assert!(!a.equals(&b));
}

#[test]
fn equals_compares_bits() {
    assert!(diagonal().equals(&diagonal()));
    assert!(!diagonal().equals(&matrix(&[true, true, false, true], 2)));
}

#[test]
fn orientation_digest_weights_positions() {
    // positions 0 and 3: 1 + 8
    assert_eq!(diagonal().unique_hash(), 9);
    // positions 0..10 all set: 255 + 1 + 2
    assert_eq!(matrix(&[true; 10], 5).unique_hash(), 258);
    assert_eq!(matrix(&[false; 4], 2).unique_hash(), 0);
}

#[test]
fn add_hash_accepts_equal_lengths() {
    let mut h = ImageHash::new();
    assert!(h.hashes.is_empty());
    assert_eq!(h.add_hash(diagonal()), Ok(()));
    assert_eq!(h.add_hash(matrix(&[true, true, false, false], 2)), Ok(()));
    assert_eq!(h.hashes.len(), 2);
}

#[test]
fn add_hash_rejects_mismatched_length() {
    let mut h = ImageHash::new();
    h.add_hash(matrix(&[true; 8], 4)).unwrap();
    let r = h.add_hash(matrix(&[false; 16], 4));
    assert_eq!(r, Err(HashError::LengthMismatch { expected: 8, actual: 16 }));
    assert_eq!(h.hashes.len(), 1);
}

#[test]
fn min_distance_takes_least_pair() {
    let mut a = ImageHash::new();
    a.add_hash(matrix(&[true, true, true, true], 2)).unwrap();
    a.add_hash(matrix(&[true, false, false, false], 2)).unwrap();
    let mut b = ImageHash::new();
    b.add_hash(matrix(&[false, false, false, false], 2)).unwrap();
    b.add_hash(matrix(&[false, true, true, true], 2)).unwrap();
    assert_eq!(a.min_distance(&b), Ok(1));
    assert_eq!(b.min_distance(&a), Ok(1));
}

#[test]
fn min_distance_self_is_zero() {
    let mut a = ImageHash::new();
    a.add_hash(matrix(&[true, false, true, true], 2)).unwrap();
    a.add_hash(matrix(&[false, false, true, false], 2)).unwrap();
    assert_eq!(a.min_distance(&a), Ok(0));
}

#[test]
fn min_distance_empty_operand() {
    let empty = ImageHash::new();
    let mut a = ImageHash::new();
    a.add_hash(diagonal()).unwrap();
    assert_eq!(a.min_distance(&empty), Err(HashError::EmptyOperand));
    assert_eq!(empty.min_distance(&a), Err(HashError::EmptyOperand));
    assert_eq!(empty.min_distance(&empty), Err(HashError::EmptyOperand));
}

#[test]
fn min_distance_length_mismatch() {
    let mut a = ImageHash::new();
    a.add_hash(diagonal()).unwrap();
    let mut b = ImageHash::new();
    b.add_hash(matrix(&[true; 9], 3)).unwrap();
    assert_eq!(
        a.min_distance(&b),
        Err(HashError::LengthMismatch { expected: 4, actual: 9 })
    );
}

#[test]
fn set_equals_any_pair() {
    let mut a = ImageHash::new();
    a.add_hash(matrix(&[true, true, true, true], 2)).unwrap();
    a.add_hash(diagonal()).unwrap();
    let mut b = ImageHash::new();
    b.add_hash(matrix(&[false, false, false, false], 2)).unwrap();
    assert!(!a.set_equals(&b));
    b.add_hash(matrix(&[true, false, false, true], 2)).unwrap();
    assert!(a.set_equals(&b));
    assert!(b.set_equals(&a));
}

#[test]
fn set_equals_self_and_empty() {
    let mut a = ImageHash::new();
    a.add_hash(diagonal()).unwrap();
    assert!(a.set_equals(&a));
    let empty = ImageHash::new();
    assert!(!empty.set_equals(&empty));
    assert!(!a.set_equals(&empty));
}

#[test]
fn image_digest_weights_orientations() {
    let mut h = ImageHash::new();
    for _ in 0..5 {
        h.add_hash(diagonal()).unwrap();
    }
    // 9 * (1 + 2 + 4 + 8 + 1)
    assert_eq!(h.unique_hash(), 144);
    assert_eq!(ImageHash::new().unique_hash(), 0);
}

#[test]
fn image_encodes_with_header() {
    let mut h = ImageHash::new();
    h.add_hash(diagonal()).unwrap();
    assert_eq!(h.to_str(), "0x00010x00019");
    h.add_hash(matrix(&[false, true, true, false], 2)).unwrap();
    assert_eq!(h.to_str(), "0x00010x000196");
}

#[test]
fn empty_image_encodes_version_only() {
    assert_eq!(ImageHash::new().to_str(), "0x0001");
    let h = ImageHash::from_str("0x0001").unwrap();
    assert!(h.hashes.is_empty());
}

#[test]
fn image_decodes_and_matches_itself() {
    let h = ImageHash::from_str("0x00010x00019").unwrap();
    assert_eq!(h.hashes.len(), 1);
    assert_eq!(h.hashes[0].hash, vec![vec![true, false], vec![false, true]]);
    assert_eq!(h.min_distance(&h), Ok(0));
}

#[test]
fn image_round_trip() {
    let mut h = ImageHash::new();
    h.add_hash(matrix(&[true, false, true, true, false, false, true, false, true, true, true, true, false, false, false, true], 4)).unwrap();
    h.add_hash(matrix(&[false, false, true, true, false, true, true, false, true, false, true, false, true, false, false, false], 4)).unwrap();
    let text = h.to_str();
    assert_eq!(text, "0x00010x0004b2f136a8");
    let back = ImageHash::from_str(&text).unwrap();
    assert_eq!(back.hashes.len(), 2);
    assert!(back.set_equals(&h));
    for k in 0..2 {
        assert_eq!(back.hashes[k].to_str(), h.hashes[k].to_str());
        assert_eq!(back.hashes[k].hash, h.hashes[k].hash);
    }
}

#[test]
fn image_decode_rejects_bad_version() {
    assert!(matches!(ImageHash::from_str("0x00020x00019"), Err(HashError::InvalidEncoding)));
    assert!(matches!(ImageHash::from_str("0y00010x00019"), Err(HashError::InvalidEncoding)));
    assert!(matches!(ImageHash::from_str("0x0"), Err(HashError::InvalidEncoding)));
}

#[test]
fn image_decode_rejects_bad_payload() {
    assert!(matches!(ImageHash::from_str("0x00010x0002abc"), Err(HashError::InvalidEncoding)));
    assert!(matches!(ImageHash::from_str("0x00010x00019z"), Err(HashError::InvalidEncoding)));
    assert!(matches!(ImageHash::from_str("0x00010x0000ab"), Err(HashError::InvalidEncoding)));
    assert!(matches!(ImageHash::from_str("0x00010x00"), Err(HashError::InvalidEncoding)));
}

#[test]
fn eq_operator_compares_bits() {
    let flat = OrientationHash::new(vec![vec![true, false, false, true]]);
    assert!(diagonal() == flat);
    assert!(diagonal() != matrix(&[true, true, false, true], 2));
    assert!(diagonal() != matrix(&[true; 9], 3));
}
