//! The headers and the section table of an executable in the PE format.

use vstd::prelude::*;
use vstd::slice::slice_subrange;

verus! {

pub const IMAGE_FILE_MACHINE_I386: u16 = 0x014c;

pub const IMAGE_FILE_MACHINE_X86_64: u16 = 0x8664;

pub const IMAGE_SCN_MEM_EXECUTE: u32 = 0x2000_0000;

pub const IMAGE_SCN_MEM_READ: u32 = 0x4000_0000;

pub const IMAGE_SCN_MEM_WRITE: u32 = 0x8000_0000;

/// Size of one entry of the section table.
pub const SECTION_ENTRY_SIZE: usize = 0x28;

/// The number that the `n` bytes of `s` from `at` on spell, lowest byte
/// first.
pub open spec fn le(s: Seq<u8>, at: int, n: nat) -> nat
    decreases n,
{
    if n == 0 {
        0
    } else {
        s[at] as nat + 256 * le(s, at + 1, (n - 1) as nat)
    }
}

/// A number spelled by `n` bytes is below the `n`-th power of 256.
pub proof fn lemma_le_bound(s: Seq<u8>, at: int, n: nat)
    requires
        n <= 8,
    ensures
        n == 2 ==> le(s, at, n) <= u16::MAX,
        n == 4 ==> le(s, at, n) <= u32::MAX,
        n == 8 ==> le(s, at, n) <= u64::MAX,
{
    reveal_with_fuel(le, 9);
}

/// The `n` bytes from `at` on lie in `s`.
pub open spec fn within(s: Seq<u8>, at: int, n: int) -> bool {
    0 <= at && at + n <= s.len()
}

/// The 16-bit number at `at`, lowest byte first.
pub fn read_u16(bytes: &[u8], at: usize) -> (r: Option<u16>)
    ensures
        r == if within(bytes@, at as int, 2) {
            Some(le(bytes@, at as int, 2) as u16)
        } else {
            None
        },
        r matches Some(v) ==> v == le(bytes@, at as int, 2),
{
    if at > bytes.len() || bytes.len() - at < 2 {
        return None;
    }
    proof {
        reveal_with_fuel(le, 3);
    }
    Some(bytes[at] as u16 + bytes[at + 1] as u16 * 0x100)
}

/// The 32-bit number at `at`, lowest byte first.
pub fn read_u32(bytes: &[u8], at: usize) -> (r: Option<u32>)
    ensures
        r == if within(bytes@, at as int, 4) {
            Some(le(bytes@, at as int, 4) as u32)
        } else {
            None
        },
        r matches Some(v) ==> v == le(bytes@, at as int, 4),
{
    if at > bytes.len() || bytes.len() - at < 4 {
        return None;
    }
    proof {
        reveal_with_fuel(le, 5);
    }
    Some(
        bytes[at] as u32 + bytes[at + 1] as u32 * 0x100 + bytes[at + 2] as u32 * 0x1_0000 + bytes[at
            + 3] as u32 * 0x100_0000,
    )
}

/// The 64-bit number at `at`, lowest byte first.
pub fn read_u64(bytes: &[u8], at: usize) -> (r: Option<u64>)
    ensures
        r == if within(bytes@, at as int, 8) {
            Some(le(bytes@, at as int, 8) as u64)
        } else {
            None
        },
        r matches Some(v) ==> v == le(bytes@, at as int, 8),
{
    if at > bytes.len() || bytes.len() - at < 8 {
        return None;
    }
    proof {
        reveal_with_fuel(le, 9);
    }
    Some(
        bytes[at] as u64 + bytes[at + 1] as u64 * 0x100 + bytes[at + 2] as u64 * 0x1_0000 + bytes[at
            + 3] as u64 * 0x100_0000 + bytes[at + 4] as u64 * 0x1_0000_0000 + bytes[at + 5] as u64
            * 0x100_0000_0000 + bytes[at + 6] as u64 * 0x1_0000_0000_0000 + bytes[at + 7] as u64
            * 0x100_0000_0000_0000,
    )
}

/// What the headers of an image say.
pub struct PeHeader {
    /// The address that the image is made to be loaded at.
    pub image_base: u64,
    /// Number of entries in the section table.
    pub num_sections: nat,
    /// Where in the file the section table starts.
    pub section_off: nat,
    /// The virtual address of the entry point.
    pub entry_point: u64,
}

/// The headers of the image `s`, where it is one for a 32-bit or a 64-bit x86
/// machine and holds its headers and its section table whole.
pub open spec fn parse_model(s: Seq<u8>) -> Option<PeHeader> {
    let pe = le(s, 0x3c, 4) as int;
    let machine = le(s, pe + 4, 2);
    let num_sections = le(s, pe + 6, 2);
    let opt_header_size = le(s, pe + 0x14, 2);
    let image_base = if machine == IMAGE_FILE_MACHINE_I386 {
        le(s, pe + 0x34, 4)
    } else {
        le(s, pe + 0x30, 8)
    };
    let entry_point = image_base + le(s, pe + 0x28, 4);
    if !(s.len() >= 2 && s[0] == 0x4d && s[1] == 0x5a) {
        // No "MZ" at the start.
        None
    } else if !within(s, 0x3c, 4) {
        None
    } else if !(within(s, pe, 4) && s[pe] == 0x50 && s[pe + 1] == 0x45 && s[pe + 2] == 0 && s[pe
        + 3] == 0) {
        // No "PE\0\0" where the header should start.
        None
    } else if !within(s, pe, 0x18) {
        None
    } else if machine != IMAGE_FILE_MACHINE_I386 && machine != IMAGE_FILE_MACHINE_X86_64 {
        None
    } else if !within(s, pe, 0x38) {
        None
    } else if entry_point > u64::MAX {
        None
    } else if !within(s, pe, 0x18 + opt_header_size + SECTION_ENTRY_SIZE * num_sections) {
        None
    } else {
        Some(
            PeHeader {
                image_base: image_base as u64,
                num_sections,
                section_off: (pe + 0x18 + opt_header_size) as nat,
                entry_point: entry_point as u64,
            },
        )
    }
}

/// One section of an image.
#[derive(Clone, Copy, Debug, PartialEq, Eq, Structural)]
pub struct Section {
    /// The virtual address that the section is loaded at.
    pub vaddr: u64,
    /// Size of the section in memory.
    pub vsize: u32,
    /// Where in the file the raw bytes of the section start.
    pub raw_off: usize,
    /// Number of raw bytes: no more than the section takes in memory.
    pub raw_len: usize,
    pub read: bool,
    pub write: bool,
    pub execute: bool,
}

/// What entry `i` of the section table of the image `s` with the headers `h`
/// says, where the section's address fits 64 bits and the file holds its raw
/// bytes.
pub open spec fn section_model(s: Seq<u8>, h: PeHeader, i: int) -> Option<Section> {
    let off = h.section_off + i * SECTION_ENTRY_SIZE;
    let virt_size = le(s, off + 0x8, 4);
    let virt_addr = le(s, off + 0xc, 4);
    let raw_size = le(s, off + 0x10, 4);
    let raw_off = le(s, off + 0x14, 4);
    let characteristics = le(s, off + 0x24, 4) as u32;
    let raw_len = if raw_size < virt_size {
        raw_size
    } else {
        virt_size
    };
    if h.image_base + virt_addr > u64::MAX {
        None
    } else if !within(s, raw_off as int, raw_len as int) {
        None
    } else {
        Some(
            Section {
                vaddr: (h.image_base + virt_addr) as u64,
                vsize: virt_size as u32,
                raw_off: raw_off as usize,
                raw_len: raw_len as usize,
                read: characteristics & IMAGE_SCN_MEM_READ != 0,
                write: characteristics & IMAGE_SCN_MEM_WRITE != 0,
                execute: characteristics & IMAGE_SCN_MEM_EXECUTE != 0,
            },
        )
    }
}

/// The first `n` sections of the image `s` with the headers `h`, in the order
/// of the section table, where each of them is sound.
pub open spec fn sections_model(s: Seq<u8>, h: PeHeader, n: nat) -> Option<Seq<Section>>
    decreases n,
{
    if n == 0 {
        Some(Seq::empty())
    } else {
        match (sections_model(s, h, (n - 1) as nat), section_model(s, h, n - 1)) {
            (Some(before), Some(section)) => Some(before.push(section)),
            _ => None,
        }
    }
}

/// A parsed image in the PE format: the bytes of the file and what its
/// headers say.
pub struct PeParser<'a> {
    bytes: &'a [u8],
    image_base: u64,
    num_sections: usize,
    section_off: usize,
    /// Virtual address of the entry point.
    pub entry_point: u64,
}

impl<'a> PeParser<'a> {
    /// The bytes of the file.
    pub closed spec fn file(&self) -> Seq<u8> {
        self.bytes@
    }

    /// What the headers say.
    pub closed spec fn header(&self) -> PeHeader {
        PeHeader {
            image_base: self.image_base,
            num_sections: self.num_sections as nat,
            section_off: self.section_off as nat,
            entry_point: self.entry_point,
        }
    }

    /// Validity of a parsed image: the headers are those of the file.
    pub open spec fn wf(&self) -> bool {
        &&& parse_model(self.file()) == Some(self.header())
        &&& self.header().section_off + SECTION_ENTRY_SIZE * self.header().num_sections
            <= self.file().len() <= usize::MAX
    }

    /// Parses the headers of the image `bytes`.
    pub fn parse(bytes: &'a [u8]) -> (r: Option<PeParser<'a>>)
        ensures
            match parse_model(bytes@) {
                Some(h) => r matches Some(p) && p.wf() && p.file() == bytes@ && p.header() == h,
                None => r is None,
            },
    {
        proof {
            reveal_with_fuel(le, 3);
        }
        // Check for an MZ header.
        if bytes.len() < 2 || bytes[0] != 0x4d || bytes[1] != 0x5a {
            return None;
        }
        // Get the PE offset.
        let pe_offset = read_u32(bytes, 0x3c)? as usize;
        // Check for the PE signature.
        if pe_offset > bytes.len() || bytes.len() - pe_offset < 4 {
            return None;
        }
        if bytes[pe_offset] != 0x50 || bytes[pe_offset + 1] != 0x45 || bytes[pe_offset + 2] != 0
            || bytes[pe_offset + 3] != 0 {
            return None;
        }
        // Make sure the COFF header is within bounds of our input.
        if bytes.len() - pe_offset < 0x18 {
            return None;
        }
        // Get the machine field and check that it is x86 or x86_64.
        let machine = read_u16(bytes, pe_offset + 4)?;
        if machine != IMAGE_FILE_MACHINE_I386 && machine != IMAGE_FILE_MACHINE_X86_64 {
            return None;
        }
        // Get the number of sections.
        let num_sections = read_u16(bytes, pe_offset + 6)? as usize;
        // Get the size of the optional header.
        let opt_header_size = read_u16(bytes, pe_offset + 0x14)? as usize;
        if bytes.len() - pe_offset < 0x38 {
            return None;
        }
        // Get the base for the program.
        let image_base = if machine == IMAGE_FILE_MACHINE_I386 {
            read_u32(bytes, pe_offset + 0x34)? as u64
        } else {
            read_u64(bytes, pe_offset + 0x30)?
        };
        let entry_point = read_u32(bytes, pe_offset + 0x28)? as u64;
        let entry_point = image_base.checked_add(entry_point)?;
        // Compute the size of all headers, including sections.
        let header_size = 0x18 + opt_header_size + SECTION_ENTRY_SIZE * num_sections;
        if bytes.len() - pe_offset < header_size {
            return None;
        }
        Some(
            PeParser {
                bytes,
                image_base,
                num_sections,
                entry_point,
                section_off: pe_offset + 0x18 + opt_header_size,
            },
        )
    }

    /// The virtual address of the entry point.
    pub fn entry_point(&self) -> (a: u64)
        ensures
            a == self.header().entry_point,
    {
        self.entry_point
    }

    /// Number of entries in the section table.
    pub fn num_sections(&self) -> (n: usize)
        ensures
            n == self.header().num_sections,
    {
        self.num_sections
    }

    /// The address that the image is made to be loaded at.
    pub fn image_base(&self) -> (a: u64)
        ensures
            a == self.header().image_base,
    {
        self.image_base
    }

    /// Entry `i` of the section table.
    pub fn section(&self, i: usize) -> (r: Option<Section>)
        requires
            self.wf(),
            i < self.header().num_sections,
        ensures
            r == section_model(self.file(), self.header(), i as int),
            r matches Some(s) ==> within(self.file(), s.raw_off as int, s.raw_len as int),
    {
        let bytes = self.bytes;
        let off = self.section_off + i * SECTION_ENTRY_SIZE;
        // Get the virtual and raw sizes and offsets.
        let virt_size = read_u32(bytes, off + 0x8)?;
        let virt_addr = read_u32(bytes, off + 0xc)?;
        let raw_size = read_u32(bytes, off + 0x10)?;
        let raw_off = read_u32(bytes, off + 0x14)? as usize;
        // Get the section characteristics.
        let characteristics = read_u32(bytes, off + 0x24)?;
        let raw_len = (if raw_size < virt_size {
            raw_size
        } else {
            virt_size
        }) as usize;
        let vaddr = self.image_base.checked_add(virt_addr as u64)?;
        if raw_off > bytes.len() || bytes.len() - raw_off < raw_len {
            return None;
        }
        Some(
            Section {
                vaddr,
                vsize: virt_size,
                raw_off,
                raw_len,
                read: (characteristics & IMAGE_SCN_MEM_READ) != 0,
                write: (characteristics & IMAGE_SCN_MEM_WRITE) != 0,
                execute: (characteristics & IMAGE_SCN_MEM_EXECUTE) != 0,
            },
        )
    }

    /// The sections of the image, in the order of the section table. There
    /// are none where one of them is not sound.
    pub fn sections(&self) -> (r: Option<Vec<Section>>)
        requires
            self.wf(),
        ensures
            match sections_model(self.file(), self.header(), self.header().num_sections) {
                Some(all) => r matches Some(v) && v@ == all,
                None => r is None,
            },
            r matches Some(v) ==> forall|i: int|
                0 <= i < v@.len() ==> within(
                    self.file(),
                    (#[trigger] v@[i]).raw_off as int,
                    v@[i].raw_len as int,
                ),
    {
        let mut all: Vec<Section> = Vec::new();
        let mut i: usize = 0;
        while i < self.num_sections
            invariant
                self.wf(),
                i <= self.num_sections,
                sections_model(self.file(), self.header(), i as nat) == Some(all@),
                forall|k: int|
                    0 <= k < all@.len() ==> within(
                        self.file(),
                        (#[trigger] all@[k]).raw_off as int,
                        all@[k].raw_len as int,
                    ),
            decreases self.num_sections - i,
        {
            match self.section(i) {
                Some(section) => {
                    all.push(section);
                },
                None => {
                    proof {
                        lemma_sections_failed(
                            self.file(),
                            self.header(),
                            (i + 1) as nat,
                            self.header().num_sections,
                        );
                    }
                    return None;
                },
            }
            i += 1;
        }
        Some(all)
    }

    /// The raw bytes of a section of this image.
    pub fn raw(&self, section: &Section) -> (r: &[u8])
        requires
            within(self.file(), section.raw_off as int, section.raw_len as int),
        ensures
            r@ == self.file().subrange(
                section.raw_off as int,
                section.raw_off + section.raw_len,
            ),
    {
        assert(self.bytes@.len() <= usize::MAX) by {
            vstd::slice::axiom_spec_len(self.bytes);
        }
        slice_subrange(self.bytes, section.raw_off, section.raw_off + section.raw_len)
    }
}

/// Where one of the first `j` sections is not sound, one of the first `n` is
/// not, for any `n` from `j` on.
proof fn lemma_sections_failed(s: Seq<u8>, h: PeHeader, j: nat, n: nat)
    requires
        j <= n,
        sections_model(s, h, j) is None,
    ensures
        sections_model(s, h, n) is None,
    decreases n - j,
{
    if j < n {
        lemma_sections_failed(s, h, j, (n - 1) as nat);
    }
}

} // verus!
