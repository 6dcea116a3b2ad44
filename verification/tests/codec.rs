use lloth::client::{BadMessage, TrackReplicate};
use lloth::codec::{append, decode_id, decode_mask, encode};

#[test]
fn small_integers_take_one_byte() {
    assert_eq!(encode(0), vec![0]);
    assert_eq!(encode(7), vec![7]);
    assert_eq!(encode(250), vec![250]);
}

#[test]
fn larger_integers_take_a_marker_and_little_endian_bytes() {
    assert_eq!(encode(251), vec![251, 251, 0]);
    assert_eq!(encode(0xFFFF), vec![251, 0xFF, 0xFF]);
    assert_eq!(encode(0x1_0000), vec![252, 0, 0, 1, 0]);
    assert_eq!(encode(0xFFFF_FFFF), vec![252, 0xFF, 0xFF, 0xFF, 0xFF]);
    assert_eq!(encode(0x1_0000_0000), vec![253, 0, 0, 0, 0, 1, 0, 0, 0]);
    assert_eq!(
        encode(0x0102_0304_0506_0708),
        vec![253, 8, 7, 6, 5, 4, 3, 2, 1]
    );
}

#[test]
fn what_is_appended_is_read_back() {
    let values = [1, 250, 251, 300, 65535, 65536, u32::MAX as u64, u64::MAX];
    let mut bytes = vec![9, 9, 9];
    for v in values {
        append(&mut bytes, v);
    }
    let mut pos = 3;
    for v in values {
        let (read, end) = decode_id(&bytes, pos).unwrap();
        assert_eq!(read, v);
        pos = end;
    }
    assert_eq!(pos, bytes.len());
    assert_eq!(decode_id(&bytes, pos), None);
}

#[test]
fn ids_are_not_zero() {
    assert_eq!(decode_id(&[0], 0), None);
    assert_eq!(decode_id(&[251, 0, 0], 0), None);
    assert_eq!(decode_id(&[1, 2], 0), Some((1, 1)));
    assert_eq!(decode_id(&[1, 2], 1), Some((2, 2)));
}

#[test]
fn truncated_and_unknown_forms_are_refused() {
    assert_eq!(decode_id(&[], 0), None);
    assert_eq!(decode_id(&[251, 1], 0), None);
    assert_eq!(decode_id(&[252, 1, 0, 0], 0), None);
    assert_eq!(decode_id(&[253, 1, 0, 0, 0, 0, 0, 0], 0), None);
    assert_eq!(decode_id(&[254, 1, 0, 0, 0, 0, 0, 0, 0, 0, 0, 0, 0, 0, 0, 0, 0], 0), None);
    assert_eq!(decode_id(&[255, 1, 1, 1], 0), None);
}

#[test]
fn a_longer_form_than_needed_is_read() {
    assert_eq!(decode_id(&[251, 5, 0], 0), Some((5, 3)));
    assert_eq!(decode_id(&[253, 5, 0, 0, 0, 0, 0, 0, 0], 0), Some((5, 9)));
}

#[test]
fn masks_fit_in_32_bits() {
    assert_eq!(decode_mask(&[0], 0), Some((0, 1)));
    assert_eq!(decode_mask(&encode(u32::MAX as u64), 0), Some((u32::MAX, 5)));
    assert_eq!(decode_mask(&encode(u32::MAX as u64 + 1), 0), None);
    assert_eq!(decode_mask(&[253, 7, 0, 0, 0, 0, 0, 0, 0], 0), Some((7, 9)));
    assert_eq!(decode_mask(&[], 0), None);
}

#[test]
fn masks_hold_two_bits_for_each_slot() {
    let mut mask: u32 = 0;
    lloth::server::TrackReplicate::<u8>::Unmodified.write_mask(0, &mut mask);
    assert_eq!(mask, 0);
    lloth::server::TrackReplicate::Modified(1u8).write_mask(0, &mut mask);
    assert_eq!(mask, 0b11);
    lloth::server::TrackReplicate::<u8>::Removed.write_mask(2, &mut mask);
    assert_eq!(mask, 0b01_00_11);
    lloth::server::TrackReplicate::Modified(1u8).write_mask(15, &mut mask);
    assert_eq!(mask, 0xC000_0013);
}

#[test]
fn masks_tell_what_was_noted() {
    let mask = 0b01_00_11u32;
    assert_eq!(TrackReplicate::from_mask(0, &mask), Ok(TrackReplicate::Modified));
    assert_eq!(TrackReplicate::from_mask(1, &mask), Ok(TrackReplicate::Unmodified));
    assert_eq!(TrackReplicate::from_mask(2, &mask), Ok(TrackReplicate::Removed));
    assert_eq!(TrackReplicate::from_mask(16, &mask), Ok(TrackReplicate::Unmodified));
    assert_eq!(TrackReplicate::from_mask(1000, &mask), Ok(TrackReplicate::Unmodified));
}

#[test]
fn a_mask_with_state_and_no_change_is_invalid() {
    assert_eq!(TrackReplicate::from_mask(0, &0b10), Err(BadMessage::InvalidMask));
    assert_eq!(TrackReplicate::from_mask(3, &0b1000_0000), Err(BadMessage::InvalidMask));
}
