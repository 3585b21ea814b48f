use sherlock::flatten::flatten_pe;
use sherlock::parse_pe::PeParser;

fn put(bytes: &mut [u8], at: usize, value: &[u8]) {
    bytes[at..at + value.len()].copy_from_slice(value);
}

const PE: usize = 0x80;
const TABLE: usize = PE + 0x18 + 0xe0;

/// A 32-bit image at 0x7e00 with the sections given as (address in the image,
/// size in memory, size in the file, offset in the file).
fn image(entry: u32, sections: &[(u32, u32, u32, u32)]) -> Vec<u8> {
    let mut bytes = vec![0u8; 0x400];
    put(&mut bytes, 0, b"MZ");
    put(&mut bytes, 0x3c, &(PE as u32).to_le_bytes());
    put(&mut bytes, PE, b"PE\0\0");
    put(&mut bytes, PE + 4, &0x014cu16.to_le_bytes());
    put(&mut bytes, PE + 6, &(sections.len() as u16).to_le_bytes());
    put(&mut bytes, PE + 0x14, &0xe0u16.to_le_bytes());
    put(&mut bytes, PE + 0x28, &entry.to_le_bytes());
    put(&mut bytes, PE + 0x34, &0x7e00u32.to_le_bytes());
    for (i, &(addr, vsize, raw_size, raw_off)) in sections.iter().enumerate() {
        let at = TABLE + i * 0x28;
        put(&mut bytes, at + 0x8, &vsize.to_le_bytes());
        put(&mut bytes, at + 0xc, &addr.to_le_bytes());
        put(&mut bytes, at + 0x10, &raw_size.to_le_bytes());
        put(&mut bytes, at + 0x14, &raw_off.to_le_bytes());
    }
    for i in 0..0x100 {
        bytes[0x300 + i] = i as u8;
    }
    bytes
}

#[test]
fn flattened_image() {
    let bytes = image(0x204, &[(0x200, 0x10, 0x8, 0x310), (0x100, 0x20, 0x40, 0x380)]);
    let pe = PeParser::parse(&bytes).unwrap();
    let (entry, base, flat) = flatten_pe(&pe).unwrap();
    assert_eq!(entry, 0x7e00 + 0x204);
    assert_eq!(base, 0x7e00 + 0x100);
    assert_eq!(flat.len(), 0x110);
    // The second section comes first in memory, with all its bytes in the file.
    for i in 0..0x20 {
        assert_eq!(flat[i], 0x80 + i as u8);
    }
    assert!(flat[0x20..0x100].iter().all(|&b| b == 0));
    for i in 0..0x8 {
        assert_eq!(flat[0x100 + i], 0x10 + i as u8);
    }
    assert!(flat[0x108..].iter().all(|&b| b == 0));
}

#[test]
fn later_sections_lie_over_earlier_ones() {
    let bytes = image(0x100, &[(0x100, 0x10, 0x10, 0x300), (0x108, 0x4, 0x4, 0x3f0)]);
    let pe = PeParser::parse(&bytes).unwrap();
    let (_, base, flat) = flatten_pe(&pe).unwrap();
    assert_eq!(base, 0x7f00);
    assert_eq!(
        flat,
        vec![0, 1, 2, 3, 4, 5, 6, 7, 0xf0, 0xf1, 0xf2, 0xf3, 12, 13, 14, 15]
    );
}

#[test]
fn images_that_cannot_be_flattened() {
    // No sections.
    let bytes = image(0x100, &[]);
    assert!(flatten_pe(&PeParser::parse(&bytes).unwrap()).is_none());
    // A section of no bytes.
    let bytes = image(0x100, &[(0x100, 0x10, 0x10, 0x300), (0x200, 0, 0, 0x300)]);
    assert!(flatten_pe(&PeParser::parse(&bytes).unwrap()).is_none());
    // The entry point lies outside the image.
    let bytes = image(0x110, &[(0x100, 0x10, 0x10, 0x300)]);
    assert!(flatten_pe(&PeParser::parse(&bytes).unwrap()).is_none());
    let bytes = image(0xff, &[(0x100, 0x10, 0x10, 0x300)]);
    assert!(flatten_pe(&PeParser::parse(&bytes).unwrap()).is_none());
    let bytes = image(0x10f, &[(0x100, 0x10, 0x10, 0x300)]);
    assert!(flatten_pe(&PeParser::parse(&bytes).unwrap()).is_some());
    // Raw bytes outside the file.
    let bytes = image(0x100, &[(0x100, 0x10, 0x10, 0x3f8)]);
    assert!(flatten_pe(&PeParser::parse(&bytes).unwrap()).is_none());
    // An address that does not fit 32 bits.
    let bytes = image(0xffff_ff00, &[(0xffff_f000, 0x1000, 0x10, 0x300)]);
    assert!(flatten_pe(&PeParser::parse(&bytes).unwrap()).is_none());
}
