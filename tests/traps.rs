use romtools::traps::{
    decode, decode_step, get_table_start, idx_to_trap, read_long, trap_to_idx, DecodeState,
    Decoder, Step, TableError, ROM_BASE, UNIMPL,
};

fn image_with_table(table: &[u8]) -> Vec<u8> {
    let mut mem = vec![0u8; 0x30];
    mem[0x22..0x26].copy_from_slice(&[0x00, 0x00, 0x00, 0x30]);
    mem.extend_from_slice(table);
    mem
}

#[test]
fn read_long_is_big_endian() {
    let mem = [0xaa, 0x12, 0x34, 0x56, 0x78];
    assert_eq!(read_long(&mem, 1), 0x1234_5678);
    assert_eq!(read_long(&mem, 0), 0xaa12_3456);
}

#[test]
fn table_start_comes_from_header() {
    let mut mem = vec![0u8; 0x26];
    mem[0x22..0x26].copy_from_slice(&[0x00, 0x01, 0x02, 0x03]);
    assert_eq!(get_table_start(&mem), 0x0001_0203);
}

#[test]
fn decode_absolute_then_short_then_end() {
    let mem = [0xff, 0x00, 0x00, 0x01, 0x00, 0x81, 0x00, 0x00];
    assert_eq!(decode(&mem, 0), Ok(vec![0x400100, 0x400102]));
}

#[test]
fn decode_unimplemented_keeps_pointer() {
    let mem = [0xff, 0x00, 0x00, 0x01, 0x00, 0x80, 0x81, 0x00, 0x00];
    assert_eq!(decode(&mem, 0), Ok(vec![0x400100, UNIMPL, 0x400102]));
    let s = DecodeState { table: 0, pointer: 0x123456 };
    assert_eq!(
        decode_step(&[0x80], s),
        Ok(Step::Entry(DecodeState { table: 1, pointer: 0x123456 }, UNIMPL))
    );
}

#[test]
fn decode_long_form_forward() {
    let mem = [0x00, 0x10, 0x00, 0x00];
    assert_eq!(decode(&mem, 0), Ok(vec![ROM_BASE + 0x20]));
}

#[test]
fn decode_long_form_backward() {
    // 0x7fff has bit 0x4000 set: 2 * 0x7fff - 0x10000 = -2.
    let mem = [0xff, 0x00, 0x00, 0x10, 0x00, 0x7f, 0xff, 0x40, 0x00, 0x00, 0x00];
    assert_eq!(decode(&mem, 0), Ok(vec![0x401000, 0x400ffe, 0x3f8ffe]));
}

#[test]
fn decode_starts_at_given_offset() {
    let mem = [0x99, 0x99, 0x82, 0x00, 0x00];
    assert_eq!(decode(&mem, 2), Ok(vec![ROM_BASE + 4]));
}

#[test]
fn decode_truncated_tables_fail() {
    assert_eq!(decode(&[], 0), Err(TableError::Truncated(0)));
    assert_eq!(decode(&[0x81], 0), Err(TableError::Truncated(1)));
    assert_eq!(decode(&[0xff, 0x00, 0x00], 0), Err(TableError::Truncated(0)));
    assert_eq!(decode(&[0x81, 0x05], 0), Err(TableError::Truncated(1)));
}

#[test]
fn decode_pointer_out_of_range_fails() {
    let mem = [0xff, 0xff, 0xc0, 0x00, 0x00];
    assert_eq!(decode(&mem, 0), Err(TableError::OutOfRange(0)));
    let s = DecodeState { table: 0, pointer: 0x10 };
    assert_eq!(decode_step(&[0x40, 0x00], s), Err(TableError::OutOfRange(0)));
}

#[test]
fn decoder_stays_finished_after_terminator() {
    let mem = image_with_table(&[0xff, 0x00, 0x00, 0x01, 0x00, 0x81, 0x00, 0x00, 0x85]);
    let mut d = Decoder::new(&mem);
    assert_eq!(d.table(), 0x30);
    assert_eq!(d.next(), Ok(Some(0x400100)));
    assert_eq!(d.next(), Ok(Some(0x400102)));
    assert!(!d.is_finished());
    assert_eq!(d.next(), Ok(None));
    assert!(d.is_finished());
    assert_eq!(d.table(), 0x38);
    assert_eq!(d.next(), Ok(None));
    assert_eq!(d.next(), Ok(None));
    assert!(d.is_finished());
    assert_eq!(d.table(), 0x38);
}

#[test]
fn decoder_error_leaves_state() {
    let mem = image_with_table(&[0x81, 0xff, 0x00]);
    let mut d = Decoder::new(&mem);
    assert_eq!(d.next(), Ok(Some(ROM_BASE + 2)));
    assert_eq!(d.next(), Err(TableError::Truncated(0x31)));
    assert_eq!(d.table(), 0x31);
    assert_eq!(d.state.pointer, ROM_BASE + 2);
    assert!(!d.is_finished());
}

#[test]
fn trap_numbers_map_to_indices() {
    assert_eq!(trap_to_idx(0xa9eb), 0x1eb);
    assert_eq!(trap_to_idx(0xa800), 0x000);
    assert_eq!(trap_to_idx(0xa01f), 0x21f);
    assert_eq!(trap_to_idx(0xa000), 0x200);
    assert_eq!(idx_to_trap(0x1eb), 0xa9eb);
    assert_eq!(idx_to_trap(0x21f), 0xa01f);
    assert_eq!(idx_to_trap(0x200), 0xa000);
    assert_eq!(idx_to_trap(0), 0xa800);
}

#[test]
fn trap_numbering_round_trips() {
    for idx in 0..0x300usize {
        assert_eq!(trap_to_idx(idx_to_trap(idx)), idx);
    }
    for trap in (0xa000u32..=0xa0ff).chain(0xa800..=0xa9ff) {
        assert_eq!(idx_to_trap(trap_to_idx(trap)), trap);
    }
}
