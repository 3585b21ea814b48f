use sherlock::pxe::{
    checksum, filename_field, parse_pxe, parse_pxenv, receive, segoff_to_linear, server_ip,
    starts_with, DownloadError, SegOff, FILENAME_SIZE, PACKET_SIZE, PXENV_SIZE, PXE_SIZE,
};

/// Sets byte `at` so that all bytes sum up to zero.
fn balance(bytes: &mut [u8], at: usize) {
    bytes[at] = 0;
    let sum = bytes.iter().fold(0u8, |acc, &x| acc.wrapping_add(x));
    bytes[at] = 0u8.wrapping_sub(sum);
}

fn pxenv() -> Vec<u8> {
    let mut bytes = vec![0u8; PXENV_SIZE];
    bytes[..6].copy_from_slice(b"PXENV+");
    bytes[8] = 0x2c;
    bytes[0x28..0x2a].copy_from_slice(&0x1234u16.to_le_bytes());
    bytes[0x2a..0x2c].copy_from_slice(&0x9e00u16.to_le_bytes());
    balance(&mut bytes, 9);
    bytes
}

fn pxe() -> Vec<u8> {
    let mut bytes = vec![0u8; PXE_SIZE];
    bytes[..4].copy_from_slice(b"!PXE");
    bytes[4] = 0x58;
    bytes[0x10..0x12].copy_from_slice(&0x0106u16.to_le_bytes());
    bytes[0x12..0x14].copy_from_slice(&0x9c00u16.to_le_bytes());
    balance(&mut bytes, 5);
    bytes
}

#[test]
fn segment_and_offset() {
    assert_eq!(segoff_to_linear(0, 0), 0);
    assert_eq!(segoff_to_linear(0x07c0, 0), 0x7c00);
    assert_eq!(segoff_to_linear(0x1234, 0x5678), 0x12340 + 0x5678);
    assert_eq!(segoff_to_linear(0xffff, 0xffff), 0x10ffef);
}

#[test]
fn checksums_wrap() {
    assert_eq!(checksum(&[]), 0);
    assert_eq!(checksum(&[1, 2, 3]), 6);
    assert_eq!(checksum(&[0xff, 0x02]), 1);
    assert_eq!(checksum(&[0x80, 0x80]), 0);
    assert_eq!(checksum(&pxenv()), 0);
}

#[test]
fn words_are_found() {
    assert!(starts_with(b"PXENV+ and more", 0, b"PXENV+"));
    assert!(starts_with(b"..!PXE", 2, b"!PXE"));
    assert!(starts_with(b"abc", 3, b""));
    assert!(!starts_with(b"abc", 4, b""));
    assert!(!starts_with(b"..!PXE", 3, b"!PXE"));
    assert!(!starts_with(b"PXENV-", 0, b"PXENV+"));
    assert!(!starts_with(b"abc", usize::MAX, b"a"));
}

#[test]
fn pxenv_structure() {
    assert_eq!(parse_pxenv(&pxenv()), Some(SegOff { seg: 0x9e00, off: 0x1234 }));
    let mut bytes = pxenv();
    bytes[0] = b'Q';
    balance(&mut bytes, 9);
    assert_eq!(parse_pxenv(&bytes), None);
    let mut bytes = pxenv();
    bytes[8] = 0x2d;
    balance(&mut bytes, 9);
    assert_eq!(parse_pxenv(&bytes), None);
    let mut bytes = pxenv();
    bytes[9] = bytes[9].wrapping_add(1);
    assert_eq!(parse_pxenv(&bytes), None);
    assert_eq!(parse_pxenv(&pxenv()[..0x2b]), None);
    let mut bytes = pxenv();
    bytes.push(0);
    assert_eq!(parse_pxenv(&bytes), None);
}

#[test]
fn pxe_structure() {
    assert_eq!(parse_pxe(&pxe()), Some(SegOff { seg: 0x9c00, off: 0x0106 }));
    let mut bytes = pxe();
    bytes[0] = b'?';
    balance(&mut bytes, 5);
    assert_eq!(parse_pxe(&bytes), None);
    let mut bytes = pxe();
    bytes[4] = 0x57;
    balance(&mut bytes, 5);
    assert_eq!(parse_pxe(&bytes), None);
    let mut bytes = pxe();
    bytes[6] = 1;
    assert_eq!(parse_pxe(&bytes), None);
    // The segment of the entry point must not be zero.
    let mut bytes = pxe();
    bytes[0x12] = 0;
    bytes[0x13] = 0;
    balance(&mut bytes, 5);
    assert_eq!(parse_pxe(&bytes), None);
    assert_eq!(parse_pxe(&pxe()[..0x57]), None);
}

#[test]
fn server_address() {
    let mut packet = [0u8; 128];
    packet[0x14..0x18].copy_from_slice(&[192, 168, 1, 7]);
    assert_eq!(server_ip(&packet), [192, 168, 1, 7]);
}

#[test]
fn file_names() {
    let field = filename_field(b"sherlock.kern").unwrap();
    assert_eq!(&field[..13], b"sherlock.kern");
    assert!(field[13..].iter().all(|&b| b == 0));
    assert_eq!(filename_field(b"").unwrap(), [0u8; FILENAME_SIZE]);
    assert!(filename_field(&[b'a'; 127]).is_some());
    assert!(filename_field(&[b'a'; 128]).is_none());
    assert!(filename_field(&[b'a'; 200]).is_none());
}

#[test]
fn packets_are_collected() {
    let mut file = Vec::new();
    let full = [7u8; PACKET_SIZE];
    assert_eq!(receive(&mut file, 1100, &full), Ok(false));
    assert_eq!(receive(&mut file, 1100, &full), Ok(false));
    assert_eq!(file.len(), 1024);
    // The file is larger than it said.
    assert_eq!(receive(&mut file, 1100, &full), Err(DownloadError::FileTooLarge));
    assert_eq!(file.len(), 1024);
    assert_eq!(receive(&mut file, 1100, &[1, 2, 3]), Ok(true));
    assert_eq!(&file[1024..], &[1, 2, 3]);
    assert_eq!(receive(&mut file, 1100, &[]), Ok(true));
    assert_eq!(file.len(), 1027);
    assert_eq!(receive(&mut file, 1027, &[9]), Err(DownloadError::FileTooLarge));
    assert_eq!(receive(&mut file, 5000, &[0u8; 513]), Err(DownloadError::PacketTooLarge));
    assert_eq!(file.len(), 1027);
}
