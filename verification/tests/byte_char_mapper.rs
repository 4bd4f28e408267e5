use symi::byte_char_mapper::ByteCharMapper;

#[test]
fn maps_ascii_and_newlines() {
    let s = "a\n\r\nb";
    let m = ByteCharMapper::new(s);
    // 'a', '\n', '\r\n', 'b' => 4
    assert_eq!(m.char_len(), 4);
    assert_eq!(m.byte_len(), s.len() as u32);
    assert_eq!(m.char_to_byte(0), 0);
    assert_eq!(m.char_to_byte(1), 1);
    assert_eq!(m.char_to_byte(2), 2);
    assert_eq!(m.char_to_byte(3), 4);
    assert_eq!(m.char_to_byte(4), 5);

    // byte->char: boundaries 0..=5
    assert_eq!(m.byte_to_char(0), 0);
    assert_eq!(m.byte_to_char(1), 1);
    assert_eq!(m.byte_to_char(2), 2);
    assert_eq!(m.byte_to_char(3), 2); // inside CRLF maps to same char index
    assert_eq!(m.byte_to_char(4), 3);
    assert_eq!(m.byte_to_char(5), 4);
}

#[test]
fn maps_unicode_scalar_as_one_char_unit() {
    let s = "a😊\n\r\nb";
    // bytes: a(1) + 😊(4) + \n(1) + \r\n(2) + b(1) = 9
    assert_eq!(s.len() as u32, 9);
    let m = ByteCharMapper::new(s);
    // 'a', '😊', '\n', '\r\n', 'b' => 5
    assert_eq!(m.char_len(), 5);
    assert_eq!(m.char_to_byte(0), 0);
    assert_eq!(m.char_to_byte(1), 1);
    assert_eq!(m.char_to_byte(2), 5);
    assert_eq!(m.char_to_byte(3), 6);
    assert_eq!(m.char_to_byte(4), 8);
    assert_eq!(m.char_to_byte(5), 9);

    // inside the emoji multi-byte sequence: map back to char index 1
    assert_eq!(m.byte_to_char(2), 1);
    assert_eq!(m.byte_to_char(3), 1);
    assert_eq!(m.byte_to_char(4), 1);
}

#[test]
fn empty_source_has_one_boundary() {
    let m = ByteCharMapper::new("");
    assert_eq!(m.char_len(), 0);
    assert_eq!(m.byte_len(), 0);
    assert_eq!(m.byte_to_char(0), 0);
    assert_eq!(m.char_to_byte(0), 0);
    assert_eq!(m.byte_to_char(17), 0);
    assert_eq!(m.char_to_byte(17), 0);
}

#[test]
fn offsets_past_the_end_count_as_the_end() {
    let m = ByteCharMapper::new("é\r\n");
    assert_eq!(m.byte_len(), 4);
    assert_eq!(m.char_len(), 2);
    assert_eq!(m.byte_to_char(100), 2);
    assert_eq!(m.char_to_byte(100), 4);
}

#[test]
fn ranges_come_out_in_order() {
    let m = ByteCharMapper::new("a😊\n\r\nb");
    assert_eq!(m.byte_range_to_char(1, 6), (1, 3));
    assert_eq!(m.byte_range_to_char(6, 1), (1, 3));
    assert_eq!(m.char_range_to_byte(1, 3), (1, 6));
    assert_eq!(m.char_range_to_byte(3, 1), (1, 6));
}

#[test]
fn round_trips_hold_on_every_boundary() {
    let s = "x\r\ny\r\r\nü-😊\n";
    let m = ByteCharMapper::new(s);
    for c in 0..=m.char_len() {
        assert_eq!(m.byte_to_char(m.char_to_byte(c)), c);
    }
    let bytes = s.as_bytes();
    for b in 0..=bytes.len() {
        let starts = b == bytes.len()
            || ((bytes[b] & 0xC0) != 0x80
                && !(bytes[b] == b'\n' && b > 0 && bytes[b - 1] == b'\r'));
        let c = m.byte_to_char(b as u32);
        if starts {
            assert_eq!(m.char_to_byte(c), b as u32);
        } else {
            assert!(m.char_to_byte(c) < b as u32);
            assert!((b as u32) < m.char_to_byte(c + 1));
        }
    }
}

#[test]
fn lone_carriage_return_is_its_own_character() {
    let m = ByteCharMapper::new("\r\r\n\n");
    // '\r', '\r\n', '\n'
    assert_eq!(m.char_len(), 3);
    assert_eq!(m.char_to_byte(1), 1);
    assert_eq!(m.char_to_byte(2), 3);
    assert_eq!(m.byte_to_char(2), 1);
}
