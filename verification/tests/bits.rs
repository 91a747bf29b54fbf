use linecode::bits::{read_bit, set_bit, BitWriter};

#[test]
fn read_bit_counts_from_the_most_significant_bit() {
    assert!(read_bit(0x80, 0));
    assert!(!read_bit(0x80, 1));
    assert!(read_bit(0x01, 7));
    assert!(!read_bit(0x01, 0));
    let expected = [true, false, true, false, false, true, false, true];
    for k in 0..8u8 {
        assert_eq!(read_bit(0xA5, k), expected[k as usize]);
    }
}

#[test]
fn set_bit_sets_one_bit_and_keeps_the_rest() {
    assert_eq!(set_bit(0x00, 0), 0x80);
    assert_eq!(set_bit(0x00, 7), 0x01);
    assert_eq!(set_bit(0x81, 3), 0x91);
    assert_eq!(set_bit(0xFF, 4), 0xFF);
    for byte in 0..=255u8 {
        for k in 0..8u8 {
            let out = set_bit(byte, k);
            for j in 0..8u8 {
                assert_eq!(read_bit(out, j), j == k || read_bit(byte, j));
            }
        }
    }
}

#[test]
fn bit_writer_packs_most_significant_bit_first() {
    let mut writer = BitWriter::new();
    for bit in [true, false, true, false, false, true, false, true] {
        writer.push(bit);
    }
    for bit in [false, true, false, true, true, false, true, false] {
        writer.push(bit);
    }
    assert_eq!(writer.into_bytes(), vec![0xA5, 0x5A]);
}

#[test]
fn bit_writer_without_bits_gives_no_bytes() {
    assert_eq!(BitWriter::new().into_bytes(), Vec::<u8>::new());
}

#[test]
fn bit_writer_leaves_out_bits_that_fill_no_byte() {
    let mut writer = BitWriter::new();
    for _ in 0..8 {
        writer.push(true);
    }
    for _ in 0..5 {
        writer.push(true);
    }
    assert_eq!(writer.into_bytes(), vec![0xFF]);
}

#[test]
fn bit_writer_rebuilds_every_byte_from_its_bits() {
    for byte in 0..=255u8 {
        let mut writer = BitWriter::new();
        for k in 0..8u8 {
            writer.push(read_bit(byte, k));
        }
        assert_eq!(writer.into_bytes(), vec![byte]);
    }
}

#[test]
fn bit_writer_with_room_writes_the_same_bytes() {
    let mut plain = BitWriter::new();
    let mut sized = BitWriter::with_capacity(2);
    for bit in [false, false, true, true, true, false, false, true] {
        plain.push(bit);
        sized.push(bit);
    }
    for bit in [true, false, false, true, false, false, true, true] {
        plain.push(bit);
        sized.push(bit);
    }
    assert_eq!(sized.into_bytes(), vec![0x39, 0x93]);
    assert_eq!(plain.into_bytes(), vec![0x39, 0x93]);
}
