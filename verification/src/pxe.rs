//! The decisions of a download over the firmware's PXE interface: which
//! structures are sound, and which packets make up the file.

use vstd::prelude::*;
use crate::parse_pe::{le, read_u16, within};

verus! {

/// Size of the PXENV+ structure.
pub const PXENV_SIZE: usize = 0x2c;

/// Size of the !PXE structure.
pub const PXE_SIZE: usize = 0x58;

/// Size of the file name field of a TFTP request.
pub const FILENAME_SIZE: usize = 128;

/// Size of a TFTP packet.
pub const PACKET_SIZE: usize = 512;

/// A pointer of the 16-bit world: a segment and an offset into it.
#[derive(Clone, Copy, Debug, PartialEq, Eq, Structural)]
pub struct SegOff {
    pub seg: u16,
    pub off: u16,
}

/// Converts a 16-bit `seg:off` pointer into a linear address.
pub fn segoff_to_linear(seg: u16, off: u16) -> (r: usize)
    ensures
        r == seg * 16 + off,
{
    (seg as usize) * 16 + off as usize
}

/// The sum of the first `n` bytes of `s`.
pub open spec fn byte_sum(s: Seq<u8>, n: int) -> int
    decreases n,
{
    if n <= 0 {
        0
    } else {
        byte_sum(s, n - 1) + s[n - 1]
    }
}

/// The sum of all bytes, cut to eight bits. The firmware's structures are made
/// so that it is zero.
pub fn checksum(bytes: &[u8]) -> (r: u8)
    ensures
        r == byte_sum(bytes@, bytes@.len() as int) % 256,
{
    let mut acc: u8 = 0;
    let mut i: usize = 0;
    while i < bytes.len()
        invariant
            i <= bytes@.len(),
            acc == byte_sum(bytes@, i as int) % 256,
        decreases bytes@.len() - i,
    {
        acc = acc.wrapping_add(bytes[i]);
        i += 1;
    }
    acc
}

/// The bytes of `s` from `at` on are those of `word`.
pub open spec fn spells(s: Seq<u8>, at: int, word: Seq<u8>) -> bool {
    within(s, at, word.len() as int) && s.subrange(at, at + word.len()) == word
}

/// Whether the bytes from `at` on are those of `word`.
pub fn starts_with(bytes: &[u8], at: usize, word: &[u8]) -> (r: bool)
    ensures
        r == spells(bytes@, at as int, word@),
{
    if at > bytes.len() || bytes.len() - at < word.len() {
        return false;
    }
    let mut i: usize = 0;
    while i < word.len()
        invariant
            at + word@.len() <= bytes@.len() <= usize::MAX,
            i <= word@.len(),
            forall|k: int| 0 <= k < i ==> bytes@[at + k] == word@[k],
        decreases word@.len() - i,
    {
        if bytes[at + i] != word[i] {
            assert(bytes@.subrange(at as int, at + word@.len())[i as int] != word@[i as int]);
            return false;
        }
        i += 1;
    }
    assert(bytes@.subrange(at as int, at + word@.len()) =~= word@);
    true
}

/// The bytes "PXENV+".
pub open spec fn pxenv_signature() -> Seq<u8> {
    seq![0x50u8, 0x58, 0x45, 0x4e, 0x56, 0x2b]
}

/// The bytes "!PXE".
pub open spec fn pxe_signature() -> Seq<u8> {
    seq![0x21u8, 0x50, 0x58, 0x45]
}

/// Where the PXENV+ structure `s` says the !PXE structure lies, where `s` is
/// sound: it has the size of the structure, says so itself, starts with its
/// signature, and its bytes sum up to zero.
pub open spec fn pxenv_model(s: Seq<u8>) -> Option<SegOff> {
    if s.len() == PXENV_SIZE && spells(s, 0, pxenv_signature()) && s[0x8] == PXENV_SIZE
        && byte_sum(s, s.len() as int) % 256 == 0 {
        Some(SegOff { seg: le(s, 0x2a, 2) as u16, off: le(s, 0x28, 2) as u16 })
    } else {
        None
    }
}

/// Checks the PXENV+ structure and returns the pointer to the !PXE structure
/// that it holds.
pub fn parse_pxenv(pxenv: &[u8]) -> (r: Option<SegOff>)
    ensures
        r == pxenv_model(pxenv@),
{
    if pxenv.len() != PXENV_SIZE {
        return None;
    }
    let signature: [u8; 6] = [0x50, 0x58, 0x45, 0x4e, 0x56, 0x2b];
    assert(signature@ =~= pxenv_signature());
    // Check the signature and length for sanity.
    if !starts_with(pxenv, 0, signature.as_slice()) || pxenv[0x8] != 0x2c || checksum(pxenv) != 0 {
        return None;
    }
    // Get the pointer to the !PXE structure.
    let off = read_u16(pxenv, 0x28)?;
    let seg = read_u16(pxenv, 0x2a)?;
    Some(SegOff { seg, off })
}

/// The entry point of the 16-bit PXE API that the !PXE structure `s` names,
/// where `s` is sound: it has the size of the structure, says so itself,
/// starts with its signature, its bytes sum up to zero, and the segment of the
/// entry point is not zero.
pub open spec fn pxe_model(s: Seq<u8>) -> Option<SegOff> {
    if s.len() == PXE_SIZE && spells(s, 0, pxe_signature()) && s[4] == PXE_SIZE && byte_sum(
        s,
        s.len() as int,
    ) % 256 == 0 && le(s, 0x12, 2) != 0 {
        Some(SegOff { seg: le(s, 0x12, 2) as u16, off: le(s, 0x10, 2) as u16 })
    } else {
        None
    }
}

/// Checks the !PXE structure and returns the entry point of the 16-bit PXE API
/// that it holds.
pub fn parse_pxe(pxe: &[u8]) -> (r: Option<SegOff>)
    ensures
        r == pxe_model(pxe@),
{
    if pxe.len() != PXE_SIZE {
        return None;
    }
    let signature: [u8; 4] = [0x21, 0x50, 0x58, 0x45];
    assert(signature@ =~= pxe_signature());
    if !starts_with(pxe, 0, signature.as_slice()) || pxe[4] != 0x58 || checksum(pxe) != 0 {
        return None;
    }
    // Get the 16-bit PXE API entry point.
    let off = read_u16(pxe, 0x10)?;
    let seg = read_u16(pxe, 0x12)?;
    // The code segment of the entry point must not be zero.
    if seg == 0 {
        return None;
    }
    Some(SegOff { seg, off })
}

/// The address of the server in a cached DHCP acknowledgement.
pub fn server_ip(packet: &[u8; 128]) -> (r: [u8; 4])
    ensures
        r@ == packet@.subrange(0x14, 0x18),
{
    let ip = [packet[0x14], packet[0x15], packet[0x16], packet[0x17]];
    assert(ip@ =~= packet@.subrange(0x14, 0x18));
    ip
}

/// The file name field of a TFTP request: the name, and zero bytes behind it.
/// There is none for a name that leaves no room for the zero at its end.
pub fn filename_field(name: &[u8]) -> (r: Option<[u8; FILENAME_SIZE]>)
    ensures
        match r {
            Some(field) => name@.len() < FILENAME_SIZE && forall|i: int|
                0 <= i < FILENAME_SIZE ==> #[trigger] field@[i] == if i < name@.len() {
                    name@[i]
                } else {
                    0u8
                },
            None => name@.len() >= FILENAME_SIZE,
        },
{
    // Check that there is room for the name and the zero that ends it.
    if name.len() >= FILENAME_SIZE {
        return None;
    }
    let mut field = [0u8; FILENAME_SIZE];
    let mut i: usize = 0;
    while i < name.len()
        invariant
            name@.len() < FILENAME_SIZE,
            i <= name@.len(),
            forall|k: int|
                0 <= k < FILENAME_SIZE ==> #[trigger] field@[k] == if k < i {
                    name@[k]
                } else {
                    0u8
                },
        decreases name@.len() - i,
    {
        field[i] = name[i];
        i += 1;
    }
    Some(field)
}

/// Why a download was given up.
#[derive(Clone, Copy, Debug, PartialEq, Eq, Structural)]
pub enum DownloadError {
    /// A packet holds more bytes than were asked for.
    PacketTooLarge,
    /// The file holds more bytes than it said it would.
    FileTooLarge,
}

/// Adds the bytes of a packet to the file downloaded so far, which is to hold
/// `file_size` bytes at most, and says whether that was the last packet: one
/// that is not full. A packet that is refused leaves the file as it was.
pub fn receive(download: &mut Vec<u8>, file_size: usize, packet: &[u8]) -> (r: Result<
    bool,
    DownloadError,
>)
    ensures
        (final(download)@, r) == if packet@.len() > PACKET_SIZE {
            (old(download)@, Err::<bool, DownloadError>(DownloadError::PacketTooLarge))
        } else if old(download)@.len() + packet@.len() > file_size {
            (old(download)@, Err::<bool, DownloadError>(DownloadError::FileTooLarge))
        } else {
            (old(download)@ + packet@, Ok::<bool, DownloadError>(packet@.len() < PACKET_SIZE))
        },
{
    if packet.len() > PACKET_SIZE {
        return Err(DownloadError::PacketTooLarge);
    }
    // The file may have changed since its size was asked for. Better to
    // fail than to let the buffer grow.
    if download.len() > file_size || file_size - download.len() < packet.len() {
        return Err(DownloadError::FileTooLarge);
    }
    let mut i: usize = 0;
    while i < packet.len()
        invariant
            i <= packet@.len(),
            download@ == old(download)@ + packet@.take(i as int),
        decreases packet@.len() - i,
    {
        download.push(packet[i]);
        assert(download@ =~= old(download)@ + packet@.take(i + 1));
        i += 1;
    }
    assert(packet@.take(packet@.len() as int) =~= packet@);
    Ok(packet.len() < PACKET_SIZE)
}

} // verus!
