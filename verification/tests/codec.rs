use refcount_migrations::MigrationError;
use refcount_migrations::codec::{
    decode_value_with_rc, decode_value_with_rc_narrow, encode_value_with_rc,
    encode_value_with_rc_narrow, widen,
};

#[test]
fn narrow_encoding_appends_four_le_bytes() {
    let blob = encode_value_with_rc_narrow(&vec![0xAB], 7);
    assert_eq!(blob, vec![0xAB, 7, 0, 0, 0]);
}

#[test]
fn wide_encoding_appends_eight_le_bytes() {
    let blob = encode_value_with_rc(&vec![1, 2], 0x0102030405060708);
    assert_eq!(blob, vec![1, 2, 8, 7, 6, 5, 4, 3, 2, 1]);
}

#[test]
fn wide_encoding_of_negative_count_is_twos_complement() {
    let blob = encode_value_with_rc(&vec![], -1);
    assert_eq!(blob, vec![0xFF; 8]);
}

#[test]
fn widened_record_preserves_value_and_count() {
    let narrow = encode_value_with_rc_narrow(&vec![0xAB], 7);
    let wide = widen(&narrow).unwrap();
    assert_eq!(wide, vec![0xAB, 7, 0, 0, 0, 0, 0, 0, 0]);
    let (value, rc) = decode_value_with_rc(&wide).unwrap();
    assert_eq!(value, vec![0xAB]);
    assert_eq!(rc, 7);
}

#[test]
fn widen_drops_blob_shorter_than_narrow_counter() {
    assert_eq!(widen(&vec![1, 2, 3]), None);
    assert_eq!(widen(&vec![]), None);
}

#[test]
fn decode_rejects_blob_shorter_than_counter_width() {
    assert_eq!(
        decode_value_with_rc(&vec![1, 2, 3, 4, 5, 6, 7]),
        Err(MigrationError::MalformedRecord)
    );
    assert_eq!(
        decode_value_with_rc_narrow(&vec![1, 2, 3]),
        Err(MigrationError::MalformedRecord)
    );
}

#[test]
fn narrow_decode_round_trips() {
    let blob = encode_value_with_rc_narrow(&vec![5, 6, 7], 300);
    let (value, rc) = decode_value_with_rc_narrow(&blob).unwrap();
    assert_eq!(value, vec![5, 6, 7]);
    assert_eq!(rc, 300);
}
