use themistocle::{packets_to_hex_str, read_capture, CaptureError};

fn header() -> Vec<u8> {
    let mut v = vec![0xa1, 0xb2, 0xc3, 0xd4];
    v.extend_from_slice(&2u16.to_be_bytes());
    v.extend_from_slice(&4u16.to_be_bytes());
    v.extend_from_slice(&0i32.to_be_bytes());
    v.extend_from_slice(&0u32.to_be_bytes());
    v.extend_from_slice(&65535u32.to_be_bytes());
    v.extend_from_slice(&1u32.to_be_bytes());
    v
}

fn packet(data: &[u8]) -> Vec<u8> {
    let mut v = Vec::new();
    v.extend_from_slice(&7u32.to_be_bytes());
    v.extend_from_slice(&0u32.to_be_bytes());
    v.extend_from_slice(&(data.len() as u32).to_be_bytes());
    v.extend_from_slice(&(data.len() as u32).to_be_bytes());
    v.extend_from_slice(data);
    v
}

#[test]
fn read_capture_gives_packet_data_in_order() {
    let mut bytes = header();
    bytes.extend(packet(&[0xde, 0xad, 0xbe, 0xef]));
    bytes.extend(packet(&[0x01]));
    let packets = read_capture(&bytes).unwrap();
    assert_eq!(packets, vec![vec![0xde, 0xad, 0xbe, 0xef], vec![0x01]]);
    assert_eq!(packets_to_hex_str(&packets), "DEADBEEF\n01\n");
}

#[test]
fn read_capture_with_no_packet() {
    let packets = read_capture(&header()).unwrap();
    assert!(packets.is_empty());
}

#[test]
fn read_capture_little_endian() {
    let mut bytes = vec![0xd4, 0xc3, 0xb2, 0xa1];
    bytes.extend_from_slice(&2u16.to_le_bytes());
    bytes.extend_from_slice(&4u16.to_le_bytes());
    bytes.extend_from_slice(&[0; 8]);
    bytes.extend_from_slice(&65535u32.to_le_bytes());
    bytes.extend_from_slice(&1u32.to_le_bytes());
    bytes.extend_from_slice(&1u32.to_le_bytes());
    bytes.extend_from_slice(&0u32.to_le_bytes());
    bytes.extend_from_slice(&2u32.to_le_bytes());
    bytes.extend_from_slice(&2u32.to_le_bytes());
    bytes.extend_from_slice(&[0x0a, 0x0b]);
    assert_eq!(read_capture(&bytes).unwrap(), vec![vec![0x0a, 0x0b]]);
}

#[test]
fn read_capture_rejects_wrong_magic() {
    let mut bytes = header();
    bytes[0] = 0;
    assert!(matches!(read_capture(&bytes), Err(CaptureError::Unreadable)));
}

#[test]
fn read_capture_rejects_cut_packet() {
    let mut bytes = header();
    let p = packet(&[1, 2, 3, 4]);
    bytes.extend_from_slice(&p[..p.len() - 1]);
    assert!(matches!(read_capture(&bytes), Err(CaptureError::Unreadable)));
}

#[test]
fn read_capture_rejects_short_header() {
    assert!(matches!(read_capture(&[0xa1, 0xb2]), Err(CaptureError::Unreadable)));
}
