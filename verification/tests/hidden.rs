use stegshare::payload::{
    consume_view, drop_opaque, grant_views, hidden_text_is_utf8, hide_payload, recover_payload,
};
use stegshare::wire::{announced_pictures, count_bytes, requested_views, starts_with_bytes};

#[test]
fn payload_is_hidden_as_base64_text() {
    assert_eq!(hide_payload(b"hello"), b"aGVsbG8=".to_vec());
    assert_eq!(hide_payload(&[]), Vec::<u8>::new());
}

#[test]
fn hidden_payload_survives_opaque_carrier() {
    let payload = vec![3u8, 137, 80, 78, 71, 0, 255];
    let mut alpha = hide_payload(&payload);
    alpha.extend_from_slice(&[255, 255, 255, 255]);
    assert!(hidden_text_is_utf8(&alpha));
    assert_eq!(recover_payload(&alpha), payload);
}

#[test]
fn opaque_bytes_are_dropped() {
    assert_eq!(drop_opaque(&[255, 65, 255, 66, 254]), vec![65, 66, 254]);
}

#[test]
fn text_that_is_not_base64_gives_empty_payload() {
    assert_eq!(recover_payload(b"!!!!"), Vec::<u8>::new());
}

#[test]
fn invalid_utf8_is_detected() {
    assert!(!hidden_text_is_utf8(&[0xc3, 0x28]));
    assert!(hidden_text_is_utf8(&[0xc3, 0xa9, 0xff]));
}

#[test]
fn viewing_uses_up_one_view() {
    let mut payload = vec![2u8, 9, 9];
    assert!(consume_view(&mut payload));
    assert_eq!(payload, vec![1, 9, 9]);
    assert!(consume_view(&mut payload));
    assert_eq!(payload, vec![0, 9, 9]);
    assert!(!consume_view(&mut payload));
    assert_eq!(payload, vec![0, 9, 9]);
}

#[test]
fn granted_views_are_added() {
    let mut payload = vec![1u8, 7];
    grant_views(&mut payload, 3);
    assert_eq!(payload, vec![4, 7]);
}

#[test]
fn counts_are_big_endian() {
    assert_eq!(count_bytes(5), vec![0, 0, 0, 0, 0, 0, 0, 5]);
    assert_eq!(count_bytes(0x0102_0304_0506_0708), vec![1, 2, 3, 4, 5, 6, 7, 8]);
    assert_eq!(count_bytes(300), 300u64.to_be_bytes().to_vec());
}

#[test]
fn picture_count_is_read_from_last_four_bytes() {
    assert_eq!(announced_pictures(&count_bytes(5)), 5);
    assert_eq!(announced_pictures(&count_bytes(0x7fff_ffff)), i32::MAX);
    assert_eq!(announced_pictures(&[0, 0, 0, 0, 0x80, 0, 0, 0]), i32::MIN);
    assert_eq!(announced_pictures(&[0, 0, 0, 0, 0xff, 0xff, 0xff, 0xfe]), -2);
}

#[test]
fn view_request_is_read_from_low_byte() {
    assert_eq!(requested_views(&count_bytes(7)), 7);
    assert_eq!(requested_views(&count_bytes(258)), 2);
}

#[test]
fn prefix_test() {
    assert!(starts_with_bytes(b"Sig:1", b"Sig"));
    assert!(!starts_with_bytes(b"Si", b"Sig"));
    assert!(starts_with_bytes(b"", b""));
}

#[test]
fn views_granted_are_the_views_that_can_be_taken() {
    let mut payload = vec![0u8, 1, 2];
    grant_views(&mut payload, 3);
    let mut taken = 0;
    while consume_view(&mut payload) {
        taken += 1;
    }
    assert_eq!(taken, 3);
    assert_eq!(payload, vec![0, 1, 2]);
}

#[test]
fn base64_groups_and_padding() {
    assert_eq!(hide_payload(b"Man"), b"TWFu".to_vec());
    assert_eq!(hide_payload(b"Ma"), b"TWE=".to_vec());
    assert_eq!(hide_payload(b"M"), b"TQ==".to_vec());
    assert_eq!(hide_payload(&[255, 254, 253, 0]), b"//79AA==".to_vec());
}

#[test]
fn only_canonical_base64_is_decoded() {
    assert_eq!(recover_payload(b"TQ=="), b"M".to_vec());
    assert_eq!(recover_payload(b"TR=="), Vec::<u8>::new());
    assert_eq!(recover_payload(b"TQ"), Vec::<u8>::new());
    assert_eq!(recover_payload(b"TQ==TQ=="), Vec::<u8>::new());
}
