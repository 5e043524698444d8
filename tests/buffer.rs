use buffin::{Buffin, EncodeError, PopFailure};

#[test]
fn u32_scenario_bytes_and_pop() {
    let mut region = [0u8; 8];
    let mut b = Buffin::new(&mut region);
    assert_eq!(b.add(&300u32), Ok(()));
    assert_eq!(b.len(), 4);
    assert_eq!(b.bytes(), &[0x2C, 0x01, 0x00, 0x00]);
    assert_eq!(b.pop::<u32>(), Ok(300));
    assert!(b.is_empty());
}

#[test]
fn option_scenario_two_pops() {
    let mut region = [0u8; 8];
    let mut b = Buffin::new(&mut region);
    assert_eq!(b.add(&Some(7u8)), Ok(()));
    assert_eq!(b.add(&None::<u8>), Ok(()));
    assert_eq!(b.bytes(), &[b'+', 0x07, b'-']);
    assert_eq!(b.pop::<Option<u8>>(), Ok(Some(7)));
    assert_eq!(b.pop::<Option<u8>>(), Ok(None));
    assert_eq!(b.len(), 0);
}

#[test]
fn capacity_boundary_from_empty() {
    let mut region = [0u8; 8];
    let mut b = Buffin::new(&mut region);
    assert_eq!(b.add_bytes(&[1, 2, 3, 4, 5, 6, 7]), Ok(()));
    assert_eq!(b.len(), 7);

    let mut region = [0u8; 8];
    let mut b = Buffin::new(&mut region);
    assert_eq!(b.add_bytes(&[1, 2, 3, 4, 5, 6, 7, 8]), Err(EncodeError::BufferTooSmall));
    assert_eq!(b.len(), 0);
}

#[test]
fn capacity_boundary_with_used_bytes() {
    let mut region = [9u8; 8];
    let mut b = Buffin::with_pos(&mut region, 3);
    assert_eq!(b.add_bytes(&[1, 2, 3, 4, 5]), Err(EncodeError::BufferTooSmall));
    assert_eq!(b.len(), 3);
    assert_eq!(b.bytes(), &[9, 9, 9]);
    assert_eq!(b.add_bytes(&[1, 2, 3, 4]), Ok(()));
    assert_eq!(b.bytes(), &[9, 9, 9, 1, 2, 3, 4]);
}

#[test]
fn add_value_too_large_leaves_buffer() {
    let mut region = [0u8; 4];
    let mut b = Buffin::new(&mut region);
    assert_eq!(b.add(&1u32), Err(EncodeError::BufferTooSmall));
    assert_eq!(b.len(), 0);
    assert_eq!(b.add(&1u16), Ok(()));
    assert_eq!(b.bytes(), &[1, 0]);
}

#[test]
fn pop_shifts_remaining_bytes_to_front() {
    let mut region = [1u8, 2, 3, 4, 5, 0, 0, 0];
    let mut b = Buffin::with_pos(&mut region, 5);
    assert_eq!(b.pop::<u16>(), Ok(0x0201));
    assert_eq!(b.len(), 3);
    assert_eq!(b.bytes(), &[3, 4, 5]);
}

#[test]
fn remove_first_moves_used_bytes() {
    let mut region = [10u8, 11, 12, 13, 14, 15];
    let mut b = Buffin::new_filled(&mut region);
    assert_eq!(b.len(), 6);
    b.remove_first(4);
    assert_eq!(b.bytes(), &[14, 15]);
    b.remove_first(0);
    assert_eq!(b.bytes(), &[14, 15]);
}

#[test]
fn clear_empties_buffer() {
    let mut region = [1u8, 2, 3];
    let mut b = Buffin::new_filled(&mut region);
    assert!(!b.is_empty());
    b.clear();
    assert!(b.is_empty());
    assert_eq!(b.bytes(), &[] as &[u8]);
}

#[test]
fn pop_incomplete_leaves_buffer() {
    let mut region = [0x2Cu8, 0x01, 0x00, 0, 0, 0];
    let mut b = Buffin::with_pos(&mut region, 3);
    assert_eq!(b.pop::<u32>(), Err(PopFailure::Incomplete));
    assert_eq!(b.bytes(), &[0x2C, 0x01, 0x00]);
    assert_eq!(b.add_bytes(&[0x00]), Ok(()));
    assert_eq!(b.pop::<u32>(), Ok(300));
}

#[test]
fn pop_invalid_marker_leaves_buffer() {
    let mut region = [b'x', 1, 2];
    let mut b = Buffin::new_filled(&mut region);
    assert_eq!(b.pop::<Option<u8>>(), Err(PopFailure::Invalid));
    assert_eq!(b.len(), 3);
}

#[test]
fn pop_empty_is_incomplete() {
    let mut region = [0u8; 4];
    let mut b = Buffin::new(&mut region);
    assert_eq!(b.pop::<u8>(), Err(PopFailure::Incomplete));
    assert_eq!(b.pop::<Option<u8>>(), Err(PopFailure::Incomplete));
}

#[test]
fn streaming_values_back_to_back() {
    let mut region = [0u8; 64];
    let mut b = Buffin::new(&mut region);
    assert_eq!(b.add(&String::from("hi")), Ok(()));
    assert_eq!(b.add(&vec![5u64]), Ok(()));
    assert_eq!(b.pop::<String>(), Ok(String::from("hi")));
    assert_eq!(b.pop::<Vec<u64>>(), Ok(vec![5u64]));
    assert!(b.is_empty());
}

#[test]
fn add_leaves_free_region_untouched() {
    let mut region = [0xAAu8; 8];
    {
        let mut b = Buffin::new(&mut region);
        assert_eq!(b.add_bytes(&[1, 2]), Ok(()));
        assert_eq!(b.add(&3u8), Ok(()));
        assert_eq!(b.add(&0x0102030405u64), Err(EncodeError::BufferTooSmall));
        assert_eq!(b.len(), 3);
    }
    assert_eq!(region, [1, 2, 3, 0xAA, 0xAA, 0xAA, 0xAA, 0xAA]);
}
