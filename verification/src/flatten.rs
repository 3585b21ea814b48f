//! The flat image of an executable: its sections laid out as they are in
//! memory.

use vstd::prelude::*;
use crate::parse_pe::{sections_model, within, PeParser, Section};

verus! {

/// Every section holds at least one byte in memory, and its last byte has an
/// address.
pub open spec fn all_sound(sections: Seq<Section>) -> bool {
    forall|i: int|
        0 <= i < sections.len() ==> (#[trigger] sections[i]).vsize >= 1 && sections[i].vaddr
            + sections[i].vsize - 1 <= u64::MAX
}

/// The lowest address of the first `k` sections.
pub open spec fn lowest(sections: Seq<Section>, k: int) -> int
    decreases k,
{
    if k <= 1 {
        sections[0].vaddr as int
    } else if sections[k - 1].vaddr < lowest(sections, k - 1) {
        sections[k - 1].vaddr as int
    } else {
        lowest(sections, k - 1)
    }
}

/// The highest address of the first `k` sections.
pub open spec fn highest(sections: Seq<Section>, k: int) -> int
    decreases k,
{
    if k <= 1 {
        sections[0].vaddr + sections[0].vsize - 1
    } else if sections[k - 1].vaddr + sections[k - 1].vsize - 1 > highest(sections, k - 1) {
        sections[k - 1].vaddr + sections[k - 1].vsize - 1
    } else {
        highest(sections, k - 1)
    }
}

/// The image `image` with the bytes `raw` laid over it from `at` on.
pub open spec fn overlay(image: Seq<u8>, at: int, raw: Seq<u8>) -> Seq<u8> {
    Seq::new(
        image.len(),
        |i: int|
            if at <= i < at + raw.len() {
                raw[i - at]
            } else {
                image[i]
            },
    )
}

/// The `size` bytes of memory from `start` on when the first `k` sections are
/// loaded in the order of the section table: zero to begin with, and the raw
/// bytes of each section laid over what is there.
pub open spec fn painted(file: Seq<u8>, sections: Seq<Section>, start: int, size: nat, k: int) -> Seq<
    u8,
>
    decreases k,
{
    if k <= 0 {
        Seq::new(size, |i: int| 0u8)
    } else {
        let section = sections[k - 1];
        overlay(
            painted(file, sections, start, size, k - 1),
            section.vaddr - start,
            file.subrange(section.raw_off as int, section.raw_off + section.raw_len),
        )
    }
}

/// The entry point, the lowest address and the bytes of the loaded image with
/// the sections `sections`, where there is a section at all, all sections are
/// sound, the image fits the memory of this machine, the entry point lies in
/// it, and entry point and lowest address fit 32 bits.
pub open spec fn flatten_model(file: Seq<u8>, sections: Seq<Section>, entry: u64) -> Option<
    (u32, u32, Seq<u8>),
> {
    let n = sections.len() as int;
    let start = lowest(sections, n);
    let end = highest(sections, n);
    if n == 0 || !all_sound(sections) {
        None
    } else if end - start + 1 > usize::MAX {
        None
    } else if entry < start || entry > end {
        None
    } else if entry > u32::MAX || start > u32::MAX {
        None
    } else {
        Some((entry as u32, start as u32, painted(file, sections, start, (end - start + 1) as nat, n)))
    }
}

/// The bounds found lie around every section seen.
proof fn lemma_bounds(sections: Seq<Section>, k: int, i: int)
    requires
        0 <= i < k <= sections.len(),
    ensures
        lowest(sections, k) <= sections[i].vaddr,
        sections[i].vaddr + sections[i].vsize - 1 <= highest(sections, k),
    decreases k,
{
    if k > 1 && i < k - 1 {
        lemma_bounds(sections, k - 1, i);
    }
}

/// Creates the flattened image of `pe`: the bytes of memory from the lowest
/// address of the image to its highest, as they are when the image is loaded.
/// Returns the entry point, the lowest address, and the bytes.
pub fn flatten_pe(pe: &PeParser) -> (r: Option<(u32, u32, Vec<u8>)>)
    requires
        pe.wf(),
    ensures
        match sections_model(pe.file(), pe.header(), pe.header().num_sections) {
            None => r is None,
            Some(sections) => match flatten_model(pe.file(), sections, pe.header().entry_point) {
                None => r is None,
                Some((entry, base, bytes)) => r matches Some(flat) && flat.0 == entry && flat.1
                    == base && flat.2@ == bytes,
            },
        },
{
    let sections = pe.sections()?;
    if sections.len() == 0 {
        return None;
    }
    // Compute the bounds of the loaded image.
    let mut image_start: u64 = 0;
    let mut image_end: u64 = 0;
    let mut k: usize = 0;
    while k < sections.len()
        invariant
            k <= sections@.len(),
            sections@.len() > 0,
            sections_model(pe.file(), pe.header(), pe.header().num_sections) == Some(sections@),
            forall|i: int|
                0 <= i < k ==> (#[trigger] sections@[i]).vsize >= 1 && sections@[i].vaddr
                    + sections@[i].vsize - 1 <= u64::MAX,
            k > 0 ==> image_start == lowest(sections@, k as int) && image_end == highest(
                sections@,
                k as int,
            ),
        decreases sections@.len() - k,
    {
        let section = sections[k];
        proof {
            if section.vsize == 0 || section.vaddr + section.vsize - 1 > u64::MAX {
                assert(!(sections@[k as int].vsize >= 1 && sections@[k as int].vaddr
                    + sections@[k as int].vsize - 1 <= u64::MAX));
            }
        }
        if section.vsize == 0 {
            return None;
        }
        let end = section.vaddr.checked_add((section.vsize - 1) as u64)?;
        if k == 0 {
            image_start = section.vaddr;
            image_end = end;
        }
        if section.vaddr < image_start {
            image_start = section.vaddr;
        }
        if end > image_end {
            image_end = end;
        }
        k += 1;
    }
    proof {
        lemma_bounds(sections@, sections@.len() as int, 0);
    }
    let image_size = (image_end - image_start).checked_add(1)?;
    if image_size > usize::MAX as u64 {
        return None;
    }
    let image_size = image_size as usize;
    // Allocate a zeroed image.
    let mut flattened = vec![0u8; image_size];
    assert(flattened@ =~= painted(pe.file(), sections@, image_start as int, image_size as nat, 0));
    let mut k: usize = 0;
    while k < sections.len()
        invariant
            pe.wf(),
            k <= sections@.len(),
            all_sound(sections@),
            image_start == lowest(sections@, sections@.len() as int),
            image_end == highest(sections@, sections@.len() as int),
            image_size == image_end - image_start + 1,
            forall|i: int|
                0 <= i < sections@.len() ==> within(
                    pe.file(),
                    (#[trigger] sections@[i]).raw_off as int,
                    sections@[i].raw_len as int,
                ),
            sections_model(pe.file(), pe.header(), pe.header().num_sections) == Some(sections@),
            flattened@.len() == image_size,
            flattened@ == painted(
                pe.file(),
                sections@,
                image_start as int,
                image_size as nat,
                k as int,
            ),
        decreases sections@.len() - k,
    {
        let section = sections[k];
        let raw = pe.raw(&section);
        proof {
            lemma_bounds(sections@, sections@.len() as int, k as int);
            lemma_raw_fits(pe.file(), pe.header(), sections@, k as int);
            assert(sections@[k as int].vsize >= 1);
        }
        let flat_off = (section.vaddr - image_start) as usize;
        let ghost before = flattened@;
        let mut j: usize = 0;
        while j < raw.len()
            invariant
                j <= raw@.len(),
                flat_off + raw@.len() <= flattened@.len() <= usize::MAX,
                flattened@.len() == before.len(),
                flattened@ == overlay(before, flat_off as int, raw@.take(j as int)),
            decreases raw@.len() - j,
        {
            flattened[flat_off + j] = raw[j];
            assert(flattened@ =~= overlay(before, flat_off as int, raw@.take(j + 1)));
            j += 1;
        }
        assert(raw@.take(raw@.len() as int) =~= raw@);
        k += 1;
    }
    // Make sure the entry point falls within the image.
    if pe.entry_point() < image_start || pe.entry_point() > image_end {
        return None;
    }
    if pe.entry_point() > u32::MAX as u64 || image_start > u32::MAX as u64 {
        return None;
    }
    Some((pe.entry_point() as u32, image_start as u32, flattened))
}

/// No section has more raw bytes than it takes in memory.
proof fn lemma_raw_fits(file: Seq<u8>, h: crate::parse_pe::PeHeader, sections: Seq<Section>, k: int)
    requires
        sections_model(file, h, h.num_sections) == Some(sections),
        0 <= k < sections.len(),
    ensures
        sections[k].raw_len <= sections[k].vsize,
{
    lemma_sections_len(file, h, h.num_sections);
    lemma_section_at(file, h, h.num_sections, k);
    crate::parse_pe::lemma_le_bound(file, h.section_off + k * 0x28 + 0x8, 4);
    crate::parse_pe::lemma_le_bound(file, h.section_off + k * 0x28 + 0x10, 4);
}

/// Each of the sections is what its entry in the section table says.
proof fn lemma_section_at(file: Seq<u8>, h: crate::parse_pe::PeHeader, n: nat, k: int)
    requires
        sections_model(file, h, n) is Some,
        0 <= k < n,
    ensures
        sections_model(file, h, n)->Some_0.len() == n,
        crate::parse_pe::section_model(file, h, k) == Some(sections_model(file, h, n)->Some_0[k]),
    decreases n,
{
    if n > 0 {
        lemma_sections_len(file, h, (n - 1) as nat);
        if k < n - 1 {
            lemma_section_at(file, h, (n - 1) as nat, k);
        }
    }
}

/// There are as many sections as entries in the section table.
proof fn lemma_sections_len(file: Seq<u8>, h: crate::parse_pe::PeHeader, n: nat)
    requires
        sections_model(file, h, n) is Some,
    ensures
        sections_model(file, h, n)->Some_0.len() == n,
    decreases n,
{
    if n > 0 {
        lemma_sections_len(file, h, (n - 1) as nat);
    }
}

} // verus!
