use project_asset::error::AssetError;
use project_asset::stream::ByteCursor;
use project_asset::string_table::{StringTable, StringTableBuilder};
use project_asset::wire::{low_u32, read_u32, u32_from_le_bytes, u32_to_le_bytes, write_u32};

#[test]
fn little_endian_bytes() {
    assert_eq!(u32_to_le_bytes(0x1234_5678), [0x78, 0x56, 0x34, 0x12]);
    assert_eq!(u32_to_le_bytes(0), [0, 0, 0, 0]);
    assert_eq!(u32_to_le_bytes(u32::MAX), [255, 255, 255, 255]);
    assert_eq!(u32_to_le_bytes(256), [0, 1, 0, 0]);
    assert_eq!(u32_from_le_bytes(&[0x78, 0x56, 0x34, 0x12]), 0x1234_5678);
    assert_eq!(u32_from_le_bytes(&[255, 255, 255, 255]), u32::MAX);
    assert_eq!(u32_from_le_bytes(&[0, 0, 0, 1]), 1 << 24);
}

#[test]
fn little_endian_agrees_with_std() {
    for x in [0u32, 1, 255, 256, 65535, 65536, 0x00ff_ffff, 0x0100_0000, 0xdead_beef, u32::MAX] {
        assert_eq!(u32_to_le_bytes(x), x.to_le_bytes());
        assert_eq!(u32_from_le_bytes(&x.to_le_bytes()), x);
    }
}

#[test]
fn low_bits() {
    assert_eq!(low_u32(0), 0);
    assert_eq!(low_u32(17), 17);
    assert_eq!(low_u32(u32::MAX as usize), u32::MAX);
    assert_eq!(low_u32((u32::MAX as usize).wrapping_add(1)), 0);
    assert_eq!(low_u32(usize::MAX), u32::MAX);
}

#[test]
fn read_u32_moves_past_the_field() {
    let mut r = ByteCursor::new(vec![1, 0, 0, 0, 0x78, 0x56, 0x34, 0x12, 9]);
    assert_eq!(read_u32(&mut r), Ok(1));
    assert_eq!(r.position(), 4);
    assert_eq!(read_u32(&mut r), Ok(0x1234_5678));
    assert_eq!(r.position(), 8);
    assert_eq!(read_u32(&mut r), Err(AssetError::Truncated));
    assert_eq!(r.position(), 8);
}

#[test]
fn write_u32_appends_four_bytes() {
    let mut w = ByteCursor::new(Vec::new());
    write_u32(&mut w, 0x0102_0304);
    write_u32(&mut w, 5);
    assert_eq!(w.position(), 8);
    assert_eq!(w.into_inner(), vec![4, 3, 2, 1, 5, 0, 0, 0]);
}

#[test]
fn cursor_reads_exactly() {
    let mut c = ByteCursor::new(vec![1, 2, 3, 4, 5]);
    assert_eq!(c.read_exact(2), Ok(vec![1, 2]));
    assert_eq!(c.position(), 2);
    assert_eq!(c.read_exact(0), Ok(vec![]));
    assert_eq!(c.read_exact(4), Err(AssetError::Truncated));
    assert_eq!(c.position(), 2);
    assert_eq!(c.read_exact(3), Ok(vec![3, 4, 5]));
    assert_eq!(c.read_exact(1), Err(AssetError::Truncated));
    assert_eq!(c.read_exact(0), Ok(vec![]));
}

#[test]
fn cursor_beyond_the_end() {
    let mut c = ByteCursor::new(vec![1, 2, 3]);
    c.set_position(10);
    assert_eq!(c.position(), 10);
    assert_eq!(c.read_exact(1), Err(AssetError::Truncated));
    assert_eq!(c.read_exact(0), Ok(vec![]));
    c.write_all(&[9]);
    assert_eq!(c.position(), 11);
    assert_eq!(c.get_ref(), &vec![1, 2, 3, 0, 0, 0, 0, 0, 0, 0, 9]);
}

#[test]
fn cursor_overwrites_and_grows() {
    let mut c = ByteCursor::new(vec![1, 2, 3, 4]);
    c.set_position(1);
    c.write_all(&[8, 9]);
    assert_eq!(c.position(), 3);
    assert_eq!(c.get_ref(), &vec![1, 8, 9, 4]);
    c.write_all(&[5, 6, 7]);
    assert_eq!(c.position(), 6);
    assert_eq!(c.get_ref(), &vec![1, 8, 9, 5, 6, 7]);
    c.set_position(0);
    c.write_all(&[]);
    assert_eq!(c.into_inner(), vec![1, 8, 9, 5, 6, 7]);
}

#[test]
fn builder_gives_indices_in_order_of_first_add() {
    let mut b = StringTableBuilder::new();
    b.add("x");
    b.add("y");
    b.add("x");
    b.add("");
    b.add("y");
    assert_eq!(b.idx("x"), Ok(0));
    assert_eq!(b.idx("y"), Ok(1));
    assert_eq!(b.idx(""), Ok(2));
}

#[test]
fn builder_does_not_find_what_was_not_added() {
    let mut b = StringTableBuilder::default();
    assert_eq!(b.idx("x"), Err(AssetError::StringNotFound { text: "x".to_string() }));
    b.add("x");
    assert_eq!(b.idx("x"), Ok(0));
    assert_eq!(b.idx("X"), Err(AssetError::StringNotFound { text: "X".to_string() }));
}

#[test]
fn builder_writes_count_lengths_and_bytes() {
    let mut b = StringTableBuilder::new();
    b.add("ab");
    b.add("");
    b.add("ab");
    b.add("ü");
    let mut w = ByteCursor::new(Vec::new());
    b.write(&mut w);
    assert_eq!(
        w.into_inner(),
        vec![3, 0, 0, 0, 2, 0, 0, 0, b'a', b'b', 0, 0, 0, 0, 2, 0, 0, 0, 0xc3, 0xbc]
    );
}

#[test]
fn empty_builder_writes_a_count_of_zero() {
    let mut w = ByteCursor::new(vec![1]);
    w.set_position(1);
    StringTableBuilder::new().write(&mut w);
    assert_eq!(w.into_inner(), vec![1, 0, 0, 0, 0]);
}

#[test]
fn table_reads_what_the_builder_wrote() {
    let mut b = StringTableBuilder::new();
    b.add("first");
    b.add("second");
    let mut c = ByteCursor::new(Vec::new());
    b.write(&mut c);
    let end = c.position();
    c.set_position(0);
    let table = StringTable::read(&mut c).expect("read");
    assert_eq!(c.position(), end);
    assert_eq!(table.get(0), Ok("first"));
    assert_eq!(table.get(1), Ok("second"));
    assert_eq!(table.get(2), Err(AssetError::StringIndexOutOfRange { index: 2, len: 2 }));
}

#[test]
fn table_read_fails_on_a_short_source() {
    let mut c = ByteCursor::new(vec![1, 0, 0]);
    assert!(matches!(StringTable::read(&mut c), Err(AssetError::Truncated)));
    let mut c = ByteCursor::new(vec![1, 0, 0, 0, 3, 0, 0, 0, b'a', b'b']);
    assert!(matches!(StringTable::read(&mut c), Err(AssetError::Truncated)));
    let mut c = ByteCursor::new(vec![2, 0, 0, 0, 1, 0, 0, 0, b'a']);
    assert!(matches!(StringTable::read(&mut c), Err(AssetError::Truncated)));
}

#[test]
fn table_read_fails_on_malformed_utf8() {
    let mut c = ByteCursor::new(vec![1, 0, 0, 0, 1, 0, 0, 0, 0x80]);
    assert!(matches!(StringTable::read(&mut c), Err(AssetError::InvalidUtf8)));
    // a surrogate, and an overlong form
    let mut c = ByteCursor::new(vec![1, 0, 0, 0, 3, 0, 0, 0, 0xed, 0xa0, 0x80]);
    assert!(matches!(StringTable::read(&mut c), Err(AssetError::InvalidUtf8)));
    let mut c = ByteCursor::new(vec![1, 0, 0, 0, 2, 0, 0, 0, 0xc0, 0x80]);
    assert!(matches!(StringTable::read(&mut c), Err(AssetError::InvalidUtf8)));
}

#[test]
fn table_may_hold_a_string_twice() {
    let mut c = ByteCursor::new(vec![2, 0, 0, 0, 1, 0, 0, 0, b'a', 1, 0, 0, 0, b'a']);
    let table = StringTable::read(&mut c).expect("read");
    assert_eq!(table.get(0), Ok("a"));
    assert_eq!(table.get(1), Ok("a"));
}
