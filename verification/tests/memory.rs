use bvm::memory::Memory;
use bvm::memory::Utf16Error;
use bvm::words::u64_to_u8arr;

#[test]
fn test_u64_to_u8arr() {
    let num: u64 = 0xF0E1D2C3B4A59687;
    let expected: [u8; 8] = [0xF0, 0xE1, 0xD2, 0xC3, 0xB4, 0xA5, 0x96, 0x87];

    assert_eq!(u64_to_u8arr(num), expected);
}

#[test]
fn test_exists() {
    let mut mem = Memory::new();
    assert!(!mem.contains(&0x2929));

    mem.write(0x2929, 1);
    assert!(mem.contains(&0x2929));
}

#[test]
fn test_read() {
    let mut mem = Memory::new();
    mem.write(2929, 2929);

    assert_eq!(mem.read(29), None);
    assert_ne!(mem.read(2929), None);
    assert_eq!(mem.read(2929).unwrap(), 2929);

    mem.write(2929, 2930);

    assert_eq!(mem.read(2929).unwrap(), 2930);
}

#[test]
fn test_delete() {
    let mut mem = Memory::new();
    mem.write(2929, 2929);

    assert_eq!(mem.read(2929).unwrap(), 2929);

    mem.delete(&2929);

    assert_eq!(mem.read(2929), None);
}

#[test]
fn test_delete_absent_is_noop() {
    let mut mem = Memory::new();
    mem.write(7, 7);

    mem.delete(&29);

    assert!(!mem.contains(&29));
    assert_eq!(mem.read(7).unwrap(), 7);
}

#[test]
fn test_read_zero_is_not_missing() {
    let mut mem = Memory::new();
    mem.write(5, 0);

    assert!(mem.contains(&5));
    assert_eq!(mem.read(5), Some(0));
}

#[test]
fn test_read_bytes_eom() {
    let mut mem = Memory::new();
    let correct: Vec<u8> = vec![
        0, 104, 0, 101, 0, 108, 0, 108, 0, 111, 0, 32, 0, 119, 0, 111, 0, 114, 0, 108, 0, 100, 0,
        0,
    ];

    mem.write(0, 0x00680065006C006C);
    mem.write(1, 0x006F00200077006F);
    mem.write(2, 0x0072006C00640000);

    assert_eq!(correct, mem.read_bytes_eom(0));
}

#[test]
fn test_read_bytes() {
    let mut mem = Memory::new();
    let correct: Vec<u8> = vec![0, 111, 0, 32, 0, 119, 0, 111, 0];

    mem.write(0, 0x00680065006C006C);
    mem.write(1, 0x006F00200077006F);
    mem.write(2, 0x0072006C00640000);

    assert_eq!(vec![0, 0x68, 0], mem.read_bytes(0, 3));
    assert_eq!(correct, mem.read_bytes(1, 9));
}

#[test]
fn test_write_bytes() {
    let mut mem = Memory::new();
    let data: Vec<u8> = vec![
        0, 104, 0, 101, 0, 108, 0, 108, 0, 111, 0, 32, 0, 119, 0, 111, 0, 114, 0, 108, 0, 100, 0,
        0,
    ];

    mem.write_bytes(3, &data);

    assert_eq!(mem.read(0), None);
    assert_eq!(mem.read(1), None);
    assert_eq!(mem.read(2), None);
    assert_eq!(mem.read(3).unwrap(), 0x00680065006C006C);
    assert_eq!(mem.read(4).unwrap(), 0x006F00200077006F);
    assert_eq!(mem.read(5).unwrap(), 0x0072006C00640000);
}

#[test]
fn test_write_bytes_partial_word_is_zero_padded() {
    let mut mem = Memory::new();
    let data: Vec<u8> = vec![1, 2, 3, 4, 5, 6, 7, 8, 9, 10, 11];

    mem.write_bytes(0, &data);

    assert_eq!(mem.read(0).unwrap(), 0x0102030405060708);
    assert_eq!(mem.read(1).unwrap(), 0x090A0B0000000000);
    assert_eq!(mem.read_bytes(0, 11), data);
}

#[test]
fn test_read_bytes_runs_through_zero_word() {
    let mut mem = Memory::new();
    mem.write(0, 1);
    mem.write(1, 0);
    mem.write(2, 2);

    assert_eq!(mem.read_bytes_eom(0), vec![0, 0, 0, 0, 0, 0, 0, 1]);
    assert_eq!(
        mem.read_bytes(0, 24),
        vec![
            0, 0, 0, 0, 0, 0, 0, 1, 0, 0, 0, 0, 0, 0, 0, 0, 0, 0, 0, 0, 0, 0, 0, 2
        ]
    );
}

#[test]
fn test_read_bytes_stops_at_missing_address() {
    let mut mem = Memory::new();
    mem.write(0, 0x1111111111111111);

    assert_eq!(mem.read_bytes(0, 16).len(), 8);
}

#[test]
fn test_read_utf16() {
    let mut mem = Memory::new();
    let correct: String = "hello world".to_owned();

    mem.write(0, 0x00680065006C006C);
    mem.write(1, 0x006F00200077006F);
    mem.write(2, 0x0072006C00640000);

    assert_eq!(correct, mem.read_utf16(0).unwrap());
}

#[test]
fn test_write_utf16() {
    let mut mem = Memory::new();

    mem.write_utf16(0, "hello world".to_owned());

    let read = mem.read_utf16(0).unwrap();

    assert_eq!(read, "hello world".to_owned());
}

#[test]
fn test_write_utf16_stored_words() {
    let mut mem = Memory::new();

    mem.write_utf16(0, "hello world".to_owned());

    assert_eq!(mem.read(0).unwrap(), 0x00680065006C006C);
    assert_eq!(mem.read(1).unwrap(), 0x006F00200077006F);
    assert_eq!(mem.read(2).unwrap(), 0x0072006C00640000);
    assert_eq!(mem.read(3), None);
}

#[test]
fn test_write_utf16_surrogate_pair_round_trip() {
    let mut mem = Memory::new();
    let text: String = "a\u{1F600}b".to_owned();

    mem.write_utf16(4, text.clone());

    assert_eq!(mem.read_utf16(4).unwrap(), text);
}

#[test]
fn test_read_utf16_unpaired_surrogate_is_an_error() {
    let mut mem = Memory::new();
    mem.write(0, 0xD800000000000000);

    assert_eq!(mem.read_utf16(0), Err(Utf16Error));
}

#[test]
fn test_write_utf16_followed_by_data_has_no_terminator() {
    let mut mem = Memory::new();
    mem.write_utf16(0, "abcd".to_owned());
    mem.write(1, 0x0041004100410041);

    assert_eq!(mem.read_utf16(0).unwrap(), "abcdAAAA".to_owned());
}
