use variable_size_byte_writer::{
    Max16, Max24, Max32, Max40, Max48, Max56, Max64, Max8, VariableSizeByteWriter,
};

/// Packs the values bit by bit, least significant bit first, and completes
/// the last byte with clear bits.
fn pack_by_hand(values: &[(u64, u32)]) -> (Vec<u8>, u32) {
    let mut bytes = Vec::new();
    let mut count: u32 = 0;
    for &(value, bits) in values {
        for i in 0..bits {
            if count % 8 == 0 {
                bytes.push(0u8);
            }
            if (value >> i) & 1 == 1 {
                let last = bytes.len() - 1;
                bytes[last] |= 1 << (count % 8);
            }
            count += 1;
        }
    }
    (bytes, (8 - count % 8) % 8)
}

/// Reads one value for each width, least significant bit first.
fn unpack_by_hand(bytes: &[u8], widths: &[u32]) -> Vec<u64> {
    let mut at: usize = 0;
    let mut values = Vec::new();
    for &bits in widths {
        let mut value: u64 = 0;
        for i in 0..bits {
            if (bytes[at / 8] >> (at % 8)) & 1 == 1 {
                value |= 1 << i;
            }
            at += 1;
        }
        values.push(value);
    }
    values
}

/// A fixed sequence of values of every width from 1 to 64.
fn mixed_values(count: usize) -> Vec<(u64, u32)> {
    let mut state: u64 = 0x9E37_79B9_7F4A_7C15;
    let mut values = Vec::new();
    for i in 0..count {
        state = state.wrapping_mul(6364136223846793005).wrapping_add(1442695040888963407);
        let bits = (i % 64) as u32 + 1;
        let value = if bits == 64 { state } else { state >> (64 - bits) };
        values.push((value, bits));
    }
    values
}

fn write_as(writer: &mut VariableSizeByteWriter<Vec<u8>>, class: usize, value: u64, bits: u32) {
    match class {
        1 => writer.write::<Max8>(value, bits).unwrap(),
        2 => writer.write::<Max16>(value, bits).unwrap(),
        3 => writer.write::<Max24>(value, bits).unwrap(),
        4 => writer.write::<Max32>(value, bits).unwrap(),
        5 => writer.write::<Max40>(value, bits).unwrap(),
        6 => writer.write::<Max48>(value, bits).unwrap(),
        7 => writer.write::<Max56>(value, bits).unwrap(),
        _ => writer.write::<Max64>(value, bits).unwrap(),
    }
}

#[test]
fn three_values_pack_into_three_bytes() {
    let mut writer = VariableSizeByteWriter::new(Vec::new());
    writer.write::<Max16>(0x3F, 6).unwrap();
    writer.write::<Max16>(0x1AFF, 13).unwrap();
    writer.write::<Max16>(0x7, 3).unwrap();
    let mut padding = 0;
    writer.flush(&mut padding).unwrap();
    assert_eq!(*writer.target.sink(), vec![0xFF, 0xBF, 0x3E]);
    assert_eq!(padding, 2);
    assert_eq!(writer.bits, 0);
}

#[test]
fn a_run_of_seven_bit_writes_fills_126_bytes() {
    let mut writer = VariableSizeByteWriter::new(Vec::new());
    for variable in 0..143u64 {
        writer.write::<Max8>(variable, 7).unwrap();
    }
    let mut padding = 0;
    writer.flush(&mut padding).unwrap();
    assert_eq!(writer.target.sink().len(), 126);
    assert_eq!(padding, 7);
}

#[test]
fn seven_bit_values_pack_without_gaps() {
    let mut writer = VariableSizeByteWriter::new(Vec::new());
    let mut values = Vec::new();
    for variable in 0..128u64 {
        writer.write::<Max8>(variable, 7).unwrap();
        values.push((variable, 7u32));
    }
    let mut padding = 0;
    writer.flush(&mut padding).unwrap();
    assert_eq!(writer.target.sink().len(), 112);
    assert_eq!(padding, 0);
    let (bytes, pad) = pack_by_hand(&values);
    assert_eq!(*writer.target.sink(), bytes);
    assert_eq!(padding, pad);
    assert_eq!(writer.target.sink()[..7], [0x80, 0x80, 0x60, 0x40, 0x28, 0x18, 0x0E]);
    assert_eq!(writer.target.sink()[111], 0xFF);
}

#[test]
fn packing_is_the_concatenation_of_the_values() {
    let values = mixed_values(500);
    for capacity in [9usize, 10, 16, 17, 64, 8192] {
        let mut writer = VariableSizeByteWriter::with_capacity(Vec::new(), capacity);
        for &(value, bits) in &values {
            writer.write::<Max64>(value, bits).unwrap();
        }
        let mut padding = 0;
        writer.flush(&mut padding).unwrap();
        let (bytes, pad) = pack_by_hand(&values);
        assert_eq!(*writer.target.sink(), bytes);
        assert_eq!(padding, pad);
    }
}

#[test]
fn decoding_recovers_the_values() {
    let values = mixed_values(300);
    let widths: Vec<u32> = values.iter().map(|v| v.1).collect();
    let numbers: Vec<u64> = values.iter().map(|v| v.0).collect();
    let mut writer = VariableSizeByteWriter::with_capacity(Vec::new(), 32);
    for &(value, bits) in &values {
        writer.write::<Max64>(value, bits).unwrap();
    }
    let mut padding = 0;
    writer.flush(&mut padding).unwrap();
    assert_eq!(unpack_by_hand(writer.target.sink(), &widths), numbers);
    let total: u32 = widths.iter().sum();
    assert_eq!(writer.target.sink().len() as u32 * 8, total + padding);
}

#[test]
fn the_class_does_not_change_what_is_written() {
    let values = mixed_values(200);
    let (bytes, pad) = pack_by_hand(&values);
    for class in 1..=8usize {
        for capacity in [9usize, 13, 40] {
            let mut writer = VariableSizeByteWriter::with_capacity(Vec::new(), capacity);
            for &(value, bits) in &values {
                write_as(&mut writer, class, value, bits);
            }
            let mut padding = 0;
            writer.flush(&mut padding).unwrap();
            assert_eq!(*writer.target.sink(), bytes);
            assert_eq!(padding, pad);
        }
    }
}

#[test]
fn full_width_values_at_every_offset() {
    for offset in 0..8u32 {
        let mut values = Vec::new();
        if offset > 0 {
            values.push(((1u64 << offset) - 1, offset));
        }
        values.push((0xFEDC_BA98_7654_3210, 64));
        values.push((u64::MAX, 64));
        values.push((0x8000_0000_0000_0001, 64));
        let mut writer = VariableSizeByteWriter::with_capacity(Vec::new(), 40);
        for &(value, bits) in &values {
            writer.write::<Max64>(value, bits).unwrap();
        }
        assert_eq!(writer.target.sink().len(), 0);
        let mut padding = 0;
        writer.flush(&mut padding).unwrap();
        let (bytes, pad) = pack_by_hand(&values);
        assert_eq!(*writer.target.sink(), bytes);
        assert_eq!(padding, pad);
        assert_eq!(padding, (8 - offset) % 8);
    }
}

#[test]
fn single_bits_fill_a_byte() {
    let mut writer = VariableSizeByteWriter::with_capacity(Vec::new(), 1);
    for bit in [1u64, 0, 1, 1, 0, 0, 1, 0, 1] {
        writer.write::<Max8>(bit, 1).unwrap();
    }
    assert_eq!(*writer.target.sink(), vec![0x4D]);
    assert_eq!(writer.bits, 1);
    assert_eq!(writer.buf[..], [0x01]);
    let mut padding = 0;
    writer.flush(&mut padding).unwrap();
    assert_eq!(*writer.target.sink(), vec![0x4D, 0x01]);
    assert_eq!(padding, 7);
}

#[test]
fn flushing_an_empty_buffer_changes_nothing() {
    let mut writer = VariableSizeByteWriter::with_capacity(Vec::new(), 16);
    let mut padding = 5;
    writer.flush(&mut padding).unwrap();
    assert_eq!(padding, 0);
    assert_eq!(writer.bits, 0);
    assert_eq!(writer.buf[..], [0u8; 16]);
    assert!(writer.target.sink().is_empty());

    writer.write::<Max16>(0x1FF, 9).unwrap();
    writer.flush(&mut padding).unwrap();
    assert_eq!(padding, 7);
    assert_eq!(*writer.target.sink(), vec![0xFF, 0x01]);
    writer.flush(&mut padding).unwrap();
    writer.flush(&mut padding).unwrap();
    assert_eq!(padding, 0);
    assert_eq!(*writer.target.sink(), vec![0xFF, 0x01]);
    assert_eq!(writer.buf[..], [0u8; 16]);
}

#[test]
fn padding_completes_the_last_byte() {
    for bits in 1..=64u32 {
        let mut writer = VariableSizeByteWriter::new(Vec::new());
        writer.write::<Max64>(0, bits).unwrap();
        assert_eq!(writer.padding(), (8 - bits % 8) % 8);
        let mut padding = 0;
        writer.flush(&mut padding).unwrap();
        assert_eq!(padding, (8 - bits % 8) % 8);
        assert_eq!(writer.target.sink().len() as u32, (bits + 7) / 8);
    }
}
