use img_watermarking::bits::Bitstream;

#[test]
fn new_bitstream_is_empty() {
    let bits = Bitstream::new();
    assert_eq!(bits.len(), 0);
    assert_eq!(bits.to_bools(), Vec::<bool>::new());
}

#[test]
fn push_appends_at_the_end() {
    let mut bits = Bitstream::new();
    bits.push(true);
    assert_eq!(bits.len(), 1);
    assert!(bits.get(0));
    bits.push(false);
    bits.push(true);
    assert_eq!(bits.len(), 3);
    assert!(bits.get(0));
    assert!(!bits.get(1));
    assert!(bits.get(2));
}

#[test]
fn bools_round_trip_through_a_bitstream() {
    let values: Vec<bool> = (0..200).map(|i| i % 3 == 0 || i % 7 == 2).collect();
    let bits = Bitstream::from_bools(&values).unwrap();
    assert_eq!(bits.len(), 200);
    for (i, v) in values.iter().enumerate() {
        assert_eq!(bits.get(i), *v);
    }
    assert_eq!(bits.to_bools(), values);
}
