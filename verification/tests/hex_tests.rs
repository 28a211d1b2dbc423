use themistocle::{bytes_to_string, packets_to_hex_str, NIBBLE_STR};

#[test]
fn bytes_to_string_renders_two_upper_digits_per_byte() {
    let mut s = String::new();
    bytes_to_string(&mut s, &[0x00, 0x0f, 0xa5, 0xff, 0x10]);
    assert_eq!(s, "000FA5FF10");
}

#[test]
fn bytes_to_string_appends_to_existing_text() {
    let mut s = String::from("xy");
    bytes_to_string(&mut s, &[0xde, 0xad]);
    assert_eq!(s, "xyDEAD");
}

#[test]
fn bytes_to_string_of_nothing_leaves_text() {
    let mut s = String::from("keep");
    bytes_to_string(&mut s, &[]);
    assert_eq!(s, "keep");
}

#[test]
fn bytes_to_string_twice_is_once_on_concatenation() {
    let mut twice = String::new();
    bytes_to_string(&mut twice, &[0x12, 0x34]);
    bytes_to_string(&mut twice, &[0xab]);
    let mut once = String::new();
    bytes_to_string(&mut once, &[0x12, 0x34, 0xab]);
    assert_eq!(twice, once);
}

#[test]
fn every_byte_value_renders_as_its_hex() {
    for b in 0u16..=255 {
        let mut s = String::new();
        bytes_to_string(&mut s, &[b as u8]);
        assert_eq!(s, format!("{:02X}", b));
    }
}

#[test]
fn nibble_table_is_upper_hex() {
    let expected: Vec<char> = "0123456789ABCDEF".chars().collect();
    assert_eq!(NIBBLE_STR.to_vec(), expected);
}

#[test]
fn packets_render_one_line_each() {
    let packets = vec![vec![0x01, 0x02], vec![], vec![0xff]];
    assert_eq!(packets_to_hex_str(&packets), "0102\n\nFF\n");
}

#[test]
fn no_packets_render_empty_text() {
    let packets: Vec<Vec<u8>> = Vec::new();
    assert_eq!(packets_to_hex_str(&packets), "");
}
