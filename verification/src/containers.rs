//! Where an executable holds its Bun payload: behind its end, or in a section of an ELF, PE or
//! Mach-O file.

use vstd::prelude::*;

use crate::bytes;
use crate::bytes::{matches_at, read_u16_le, read_u32_le, read_u64_le};
use crate::error::{ExtractError, Failure};
use crate::format::{
    EmbedMethod, BUN_SECTION_NAME, ELF_MAGIC, LC_SEGMENT_64, MACHO_MAGIC_32, MACHO_MAGIC_64,
    MACHO_SECTION_NAME, MACHO_SEGMENT_NAME, PE_MAGIC, PE_SIGNATURE, TRAILER,
};

verus! {

/// The first zero byte at or behind `at`, or the end of the bytes.
pub open spec fn nul_index(bytes: Seq<u8>, at: int) -> int
    decreases bytes.len() - at,
{
    if at >= bytes.len() || bytes[at] == 0 {
        at
    } else {
        nul_index(bytes, at + 1)
    }
}

/// The zero-terminated name at `at`, without its terminator; the end of the bytes ends it too.
pub open spec fn name_at(bytes: Seq<u8>, at: int) -> Seq<u8> {
    bytes.subrange(at, nul_index(bytes, at))
}

proof fn lemma_nul_index(bytes: Seq<u8>, at: int)
    requires
        0 <= at <= bytes.len(),
    ensures
        at <= nul_index(bytes, at) <= bytes.len(),
    decreases bytes.len() - at,
{
    if at < bytes.len() && bytes[at] != 0 {
        lemma_nul_index(bytes, at + 1);
    }
}

/// Whether the zero-terminated name at `at` is `name`.
fn has_name_at(bytes: &[u8], at: usize, name: &[u8]) -> (yes: bool)
    requires
        at <= bytes.len(),
    ensures
        yes == (name_at(bytes@, at as int) == name@),
{
    let mut end: usize = at;
    while end < bytes.len() && bytes[end] != 0
        invariant
            at <= end <= bytes.len(),
            nul_index(bytes@, at as int) == nul_index(bytes@, end as int),
        decreases bytes.len() - end,
    {
        end = end + 1;
    }
    proof {
        lemma_nul_index(bytes@, at as int);
    }
    end - at == name.len() && matches_at(bytes, at, name)
}

/// Whether the trailer stands where an appended payload ends: in front of the eight bytes that
/// tell the size of the file.
pub open spec fn has_trailer(data: Seq<u8>) -> bool {
    data.len() >= 24 && data.subrange(data.len() - 24, data.len() - 8) == TRAILER@
}

/// The section names of an ELF file: the contents of the section with this index.
pub open spec fn elf_names(data: Seq<u8>, table: int, entry_size: int, index: int) -> Result<
    Seq<u8>,
    Failure,
> {
    let header = table + index * entry_size;
    if header + entry_size > data.len() {
        Err(Failure::InvalidElf)
    } else {
        match bytes::read_le(data, header + 24, 8, Failure::InvalidElf) {
            Err(failure) => Err(failure),
            Ok(offset) => if offset > usize::MAX {
                Err(Failure::InvalidElf)
            } else {
                match bytes::read_le(data, header + 32, 8, Failure::InvalidElf) {
                    Err(failure) => Err(failure),
                    Ok(size) => if offset + size > data.len() {
                        Err(Failure::InvalidElf)
                    } else {
                        Ok(data.subrange(offset as int, (offset + size) as int))
                    },
                }
            },
        }
    }
}

/// The section names of an ELF file: the contents of the section that its header says.
pub open spec fn elf_section_names(data: Seq<u8>) -> Result<Seq<u8>, Failure> {
    elf_names(
        data,
        bytes::le_at(data, 40, 8) as int,
        bytes::le_at(data, 58, 2) as int,
        bytes::le_at(data, 62, 2) as int,
    )
}

/// The first section named `.bun`, from the section with this index on. The search ends where
/// a header leaves the file.
pub open spec fn elf_search(
    data: Seq<u8>,
    names: Seq<u8>,
    table: int,
    entry_size: int,
    count: int,
    index: int,
) -> Result<EmbedMethod, Failure>
    decreases count - index,
{
    let header = table + index * entry_size;
    if index >= count {
        Err(Failure::BunSectionNotFound)
    } else if header + entry_size > usize::MAX {
        Err(Failure::InvalidElf)
    } else if header + entry_size > data.len() {
        Err(Failure::BunSectionNotFound)
    } else {
        match bytes::read_le(data, header, 4, Failure::InvalidElf) {
            Err(failure) => Err(failure),
            Ok(name) => if name < names.len() && name_at(names, name as int) == BUN_SECTION_NAME@ {
                match bytes::read_le(data, header + 24, 8, Failure::InvalidElf) {
                    Err(failure) => Err(failure),
                    Ok(offset) => if offset > usize::MAX {
                        Err(Failure::InvalidElf)
                    } else {
                        Ok(EmbedMethod::ElfSection { section_offset: offset as usize })
                    },
                }
            } else {
                elf_search(data, names, table, entry_size, count, index + 1)
            },
        }
    }
}

/// The `.bun` section of a 64-bit ELF file.
pub open spec fn elf_section(data: Seq<u8>) -> Result<EmbedMethod, Failure> {
    let table = bytes::le_at(data, 40, 8) as int;
    let entry_size = bytes::le_at(data, 58, 2) as int;
    let count = bytes::le_at(data, 60, 2) as int;
    if data.len() < 64 || !ELF_MAGIC@.is_prefix_of(data) {
        Err(Failure::TrailerNotFound)
    } else if data[4] != 2 || table > usize::MAX {
        Err(Failure::InvalidElf)
    } else if table == 0 || count == 0 {
        Err(Failure::BunSectionNotFound)
    } else {
        match elf_section_names(data) {
            Err(failure) => Err(failure),
            Ok(names) => elf_search(data, names, table, entry_size, count, 0),
        }
    }
}

/// Reads the field `distance` bytes behind `base`.
fn read_field_u64(data: &[u8], base: usize, distance: usize, err: ExtractError) -> (result: Result<
    u64,
    ExtractError,
>)
    ensures
        match result {
            Ok(value) => bytes::read_le(data@, base + distance, 8, err@) == Ok::<
                nat,
                Failure,
            >(value as nat),
            Err(e) => bytes::read_le(data@, base + distance, 8, err@) == Err::<
                nat,
                Failure,
            >(e@),
        },
{
    if base > data.len() || distance > data.len() - base {
        return Err(err);
    }
    read_u64_le(data, base + distance, err)
}

/// Reads the field `distance` bytes behind `base`.
fn read_field_u16(data: &[u8], base: usize, distance: usize, err: ExtractError) -> (result: Result<
    u16,
    ExtractError,
>)
    ensures
        match result {
            Ok(value) => bytes::read_le(data@, base + distance, 2, err@) == Ok::<
                nat,
                Failure,
            >(value as nat),
            Err(e) => bytes::read_le(data@, base + distance, 2, err@) == Err::<
                nat,
                Failure,
            >(e@),
        },
{
    if base > data.len() || distance > data.len() - base {
        return Err(err);
    }
    read_u16_le(data, base + distance, err)
}

/// Finds the section names of an ELF file.
fn find_elf_names<'a>(data: &'a [u8], table: usize, entry_size: u16, index: u16) -> (result: Result<
    &'a [u8],
    ExtractError,
>)
    ensures
        match result {
            Ok(names) => elf_names(data@, table as int, entry_size as int, index as int) == Ok::<
                Seq<u8>,
                Failure,
            >(names@),
            Err(e) => elf_names(data@, table as int, entry_size as int, index as int) == Err::<
                Seq<u8>,
                Failure,
            >(e@),
        },
{
    proof {
        assert(index * entry_size <= 0xFFFF * 0xFFFF) by (nonlinear_arith)
            requires
                index <= 0xFFFF,
                entry_size <= 0xFFFF,
        ;
    }
    let distance: usize = (index as u32 * entry_size as u32) as usize;
    if table > data.len() || distance > data.len() - table || entry_size as usize > data.len()
        - table - distance {
        return Err(ExtractError::InvalidElf);
    }
    let header: usize = table + distance;
    let offset: usize = match usize::try_from(
        read_field_u64(data, header, 24, ExtractError::InvalidElf)?,
    ) {
        Ok(offset) => offset,
        Err(_) => {
            return Err(ExtractError::InvalidElf);
        },
    };
    let size: usize = match usize::try_from(
        read_field_u64(data, header, 32, ExtractError::InvalidElf)?,
    ) {
        Ok(size) => size,
        Err(_) => {
            return Err(ExtractError::InvalidElf);
        },
    };
    if offset > data.len() || size > data.len() - offset {
        return Err(ExtractError::InvalidElf);
    }
    Ok(vstd::slice::slice_subrange(data, offset, offset + size))
}

/// Finds the `.bun` section of a 64-bit ELF file.
pub fn find_elf_bun_section(data: &[u8]) -> (result: Result<EmbedMethod, ExtractError>)
    ensures
        match result {
            Ok(method) => elf_section(data@) == Ok::<EmbedMethod, Failure>(method),
            Err(e) => elf_section(data@) == Err::<EmbedMethod, Failure>(e@),
        },
{
    if data.len() < 64 || !matches_at(data, 0, &ELF_MAGIC) {
        return Err(ExtractError::TrailerNotFound);
    }
    if data[4] != 2 {
        return Err(ExtractError::InvalidElf);
    }
    let table: usize = match usize::try_from(read_u64_le(data, 40, ExtractError::InvalidElf)?) {
        Ok(table) => table,
        Err(_) => {
            return Err(ExtractError::InvalidElf);
        },
    };
    let entry_size: u16 = read_u16_le(data, 58, ExtractError::InvalidElf)?;
    let count: u16 = read_u16_le(data, 60, ExtractError::InvalidElf)?;
    let names_index: u16 = read_u16_le(data, 62, ExtractError::InvalidElf)?;
    if table == 0 || count == 0 {
        return Err(ExtractError::BunSectionNotFound);
    }
    let names = find_elf_names(data, table, entry_size, names_index)?;
    let mut index: u16 = 0;
    while index < count
        invariant
            index <= count,
            elf_section(data@) == elf_search(
                data@,
                names@,
                table as int,
                entry_size as int,
                count as int,
                index as int,
            ),
        decreases count - index,
    {
        proof {
            assert(index * entry_size <= 0xFFFF * 0xFFFF) by (nonlinear_arith)
                requires
                    index <= 0xFFFF,
                    entry_size <= 0xFFFF,
            ;
        }
        let distance: usize = (index as u32 * entry_size as u32) as usize;
        let header: usize = match table.checked_add(distance) {
            Some(header) => header,
            None => {
                return Err(ExtractError::InvalidElf);
            },
        };
        match header.checked_add(entry_size as usize) {
            Some(end) => if end > data.len() {
                return Err(ExtractError::BunSectionNotFound);
            },
            None => {
                return Err(ExtractError::InvalidElf);
            },
        }
        let name: usize = read_u32_le(data, header, ExtractError::InvalidElf)? as usize;
        if name < names.len() && has_name_at(names, name, &BUN_SECTION_NAME) {
            return match usize::try_from(
                read_field_u64(data, header, 24, ExtractError::InvalidElf)?,
            ) {
                Ok(section_offset) => Ok(EmbedMethod::ElfSection { section_offset }),
                Err(_) => Err(ExtractError::InvalidElf),
            };
        }
        index = index + 1;
    }
    Err(ExtractError::BunSectionNotFound)
}

/// The first section named `.bun` that lies inside the file, from the section with this index
/// on. A section header has 40 bytes, of which the first eight are the name. The search ends
/// where a header leaves the file.
pub open spec fn pe_search(data: Seq<u8>, table: int, count: int, index: int) -> Result<
    EmbedMethod,
    Failure,
>
    decreases count - index,
{
    let header = table + 40 * index;
    if index >= count {
        Err(Failure::BunSectionNotFound)
    } else if header + 40 > usize::MAX {
        Err(Failure::InvalidPe)
    } else if header + 40 > data.len() {
        Err(Failure::BunSectionNotFound)
    } else {
        let size = bytes::le_at(data, header + 16, 4);
        let offset = bytes::le_at(data, header + 20, 4);
        if name_at(data.subrange(header, header + 8), 0) != BUN_SECTION_NAME@ {
            pe_search(data, table, count, index + 1)
        } else if offset + size > usize::MAX {
            Err(Failure::InvalidPe)
        } else if offset + size > data.len() {
            pe_search(data, table, count, index + 1)
        } else {
            Ok(EmbedMethod::PeSection { section_offset: offset as usize })
        }
    }
}

/// The `.bun` section of a PE file.
pub open spec fn pe_section(data: Seq<u8>) -> Result<EmbedMethod, Failure> {
    let header = bytes::le_at(data, 0x3C, 4) as int;
    if data.len() < 0x40 || !PE_MAGIC@.is_prefix_of(data) {
        Err(Failure::TrailerNotFound)
    } else if header + 4 > data.len() || data.subrange(header, header + 4) != PE_SIGNATURE@ {
        Err(Failure::InvalidPe)
    } else {
        match bytes::read_le(data, header + 6, 2, Failure::InvalidPe) {
            Err(failure) => Err(failure),
            Ok(count) => match bytes::read_le(data, header + 20, 2, Failure::InvalidPe) {
                Err(failure) => Err(failure),
                Ok(optional_size) => if header + 24 + optional_size > usize::MAX {
                    Err(Failure::InvalidPe)
                } else {
                    pe_search(data, header + 24 + optional_size, count as int, 0)
                },
            },
        }
    }
}

/// Finds the `.bun` section of a PE file.
pub fn find_pe_bun_section(data: &[u8]) -> (result: Result<EmbedMethod, ExtractError>)
    ensures
        match result {
            Ok(method) => pe_section(data@) == Ok::<EmbedMethod, Failure>(method),
            Err(e) => pe_section(data@) == Err::<EmbedMethod, Failure>(e@),
        },
{
    if data.len() < 0x40 || !matches_at(data, 0, &PE_MAGIC) {
        return Err(ExtractError::TrailerNotFound);
    }
    let header: usize = read_u32_le(data, 0x3C, ExtractError::InvalidPe)? as usize;
    if header > data.len() || !matches_at(data, header, &PE_SIGNATURE) {
        return Err(ExtractError::InvalidPe);
    }
    let count: u16 = read_field_u16(data, header, 6, ExtractError::InvalidPe)?;
    let optional_size: u16 = read_field_u16(data, header, 20, ExtractError::InvalidPe)?;
    let table: usize = match header.checked_add(24 + optional_size as usize) {
        Some(table) => table,
        None => {
            return Err(ExtractError::InvalidPe);
        },
    };
    let mut index: u16 = 0;
    while index < count
        invariant
            index <= count,
            pe_section(data@) == pe_search(data@, table as int, count as int, index as int),
        decreases count - index,
    {
        let section: usize = match table.checked_add(40 * index as usize) {
            Some(section) if section <= usize::MAX - 40 => section,
            _ => {
                return Err(ExtractError::InvalidPe);
            },
        };
        if section + 40 > data.len() {
            return Err(ExtractError::BunSectionNotFound);
        }
        let name = vstd::slice::slice_subrange(data, section, section + 8);
        if has_name_at(name, 0, &BUN_SECTION_NAME) {
            let size: usize = bytes::u32_at(data, section + 16) as usize;
            let section_offset: usize = bytes::u32_at(data, section + 20) as usize;
            match section_offset.checked_add(size) {
                Some(end) => if end <= data.len() {
                    return Ok(EmbedMethod::PeSection { section_offset });
                },
                None => {
                    return Err(ExtractError::InvalidPe);
                },
            }
        }
        index = index + 1;
    }
    Err(ExtractError::BunSectionNotFound)
}

/// What the sections of one Mach-O segment give: nothing if the search goes on with the next
/// command. A section header has 80 bytes and starts with the section's name.
pub open spec fn macho_sections(data: Seq<u8>, at: int, count: int) -> Option<
    Result<EmbedMethod, Failure>,
>
    decreases count,
{
    if count <= 0 {
        None
    } else if at + 80 > usize::MAX {
        Some(Err(Failure::InvalidMachO))
    } else if at + 80 > data.len() {
        None
    } else if data.subrange(at, at + 16) == MACHO_SECTION_NAME@ {
        Some(
            Ok(
                EmbedMethod::MachoSection {
                    section_offset: bytes::le_at(data, at + 48, 4) as usize,
                },
            ),
        )
    } else {
        macho_sections(data, at + 80, count - 1)
    }
}

/// The `__BUN,__bun` section that the next `count` load commands lead to, from the command at
/// `at` on. The search ends where a command leaves the file, or is shorter than its own head.
pub open spec fn macho_search(data: Seq<u8>, at: int, count: int) -> Result<EmbedMethod, Failure>
    decreases count,
{
    let command = bytes::le_at(data, at, 4);
    let size = bytes::le_at(data, at + 4, 4) as int;
    if count <= 0 {
        Err(Failure::BunSectionNotFound)
    } else if at + 8 > usize::MAX {
        Err(Failure::InvalidMachO)
    } else if at + 8 > data.len() || size < 8 {
        Err(Failure::BunSectionNotFound)
    } else if at + size > usize::MAX {
        Err(Failure::InvalidMachO)
    } else if at + size > data.len() {
        Err(Failure::BunSectionNotFound)
    } else if command == LC_SEGMENT_64 && size >= 72 && data.subrange(at + 8, at + 24)
        == MACHO_SEGMENT_NAME@ {
        match macho_sections(data, at + 72, bytes::le_at(data, at + 64, 4) as int) {
            Some(result) => result,
            None => macho_search(data, at + size, count - 1),
        }
    } else {
        macho_search(data, at + size, count - 1)
    }
}

/// The `__BUN,__bun` section of a Mach-O file.
pub open spec fn macho_section(data: Seq<u8>) -> Result<EmbedMethod, Failure> {
    let magic = bytes::le_at(data, 0, 4);
    if data.len() < 32 {
        Err(Failure::TrailerNotFound)
    } else if magic != MACHO_MAGIC_64 && magic != MACHO_MAGIC_32 {
        Err(Failure::InvalidMachO)
    } else {
        macho_search(
            data,
            if magic == MACHO_MAGIC_64 {
                32
            } else {
                28
            },
            bytes::le_at(data, 16, 4) as int,
        )
    }
}

/// Looks through the sections of one Mach-O segment.
fn search_macho_sections(data: &[u8], start: usize, count: u32) -> (found: Option<
    Result<EmbedMethod, ExtractError>,
>)
    ensures
        match found {
            Some(Ok(method)) => macho_sections(data@, start as int, count as int) == Some(
                Ok::<EmbedMethod, Failure>(method),
            ),
            Some(Err(e)) => macho_sections(data@, start as int, count as int) == Some(
                Err::<EmbedMethod, Failure>(e@),
            ),
            None => macho_sections(data@, start as int, count as int) is None,
        },
{
    let mut at: usize = start;
    let mut left: u32 = count;
    while left > 0
        invariant
            macho_sections(data@, start as int, count as int) == macho_sections(
                data@,
                at as int,
                left as int,
            ),
        decreases left,
    {
        match at.checked_add(80) {
            Some(end) => {
                if end > data.len() {
                    return None;
                }
                if matches_at(data, at, &MACHO_SECTION_NAME) {
                    let section_offset: usize = bytes::u32_at(data, at + 48) as usize;
                    return Some(Ok(EmbedMethod::MachoSection { section_offset }));
                }
                at = end;
                left = left - 1;
            },
            None => {
                return Some(Err(ExtractError::InvalidMachO));
            },
        }
    }
    None
}

/// Finds the `__BUN,__bun` section of a Mach-O file.
pub fn find_macho_bun_section(data: &[u8]) -> (result: Result<EmbedMethod, ExtractError>)
    ensures
        match result {
            Ok(method) => macho_section(data@) == Ok::<EmbedMethod, Failure>(method),
            Err(e) => macho_section(data@) == Err::<EmbedMethod, Failure>(e@),
        },
{
    if data.len() < 32 {
        return Err(ExtractError::TrailerNotFound);
    }
    let magic: u32 = read_u32_le(data, 0, ExtractError::InvalidMachO)?;
    let is_64: bool = magic == MACHO_MAGIC_64;
    if !is_64 && magic != MACHO_MAGIC_32 {
        return Err(ExtractError::InvalidMachO);
    }
    let mut left: u32 = read_u32_le(data, 16, ExtractError::InvalidMachO)?;
    let mut at: usize = if is_64 {
        32
    } else {
        28
    };
    while left > 0
        invariant
            macho_section(data@) == macho_search(data@, at as int, left as int),
        decreases left,
    {
        match at.checked_add(8) {
            Some(end) => if end > data.len() {
                return Err(ExtractError::BunSectionNotFound);
            },
            None => {
                return Err(ExtractError::InvalidMachO);
            },
        }
        let command: u32 = bytes::u32_at(data, at);
        let size: usize = bytes::u32_at(data, at + 4) as usize;
        if size < 8 {
            return Err(ExtractError::BunSectionNotFound);
        }
        let next: usize = match at.checked_add(size) {
            Some(next) => next,
            None => {
                return Err(ExtractError::InvalidMachO);
            },
        };
        if next > data.len() {
            return Err(ExtractError::BunSectionNotFound);
        }
        if command == LC_SEGMENT_64 && size >= 72 && matches_at(data, at + 8, &MACHO_SEGMENT_NAME) {
            let count: u32 = bytes::u32_at(data, at + 64);
            if let Some(result) = search_macho_sections(data, at + 72, count) {
                return result;
            }
        }
        at = next;
        left = left - 1;
    }
    Err(ExtractError::BunSectionNotFound)
}

/// How the payload of an executable was embedded: a trailer at the end of the file comes
/// first, then the section of whichever container the file is.
pub open spec fn embed_method_of(data: Seq<u8>) -> Result<EmbedMethod, Failure> {
    if has_trailer(data) {
        Ok(EmbedMethod::Appended)
    } else if elf_section(data) is Ok {
        elf_section(data)
    } else if pe_section(data) is Ok {
        pe_section(data)
    } else if macho_section(data) is Ok {
        macho_section(data)
    } else {
        Err(Failure::TrailerNotFound)
    }
}

/// Finds out how the payload of an executable was embedded.
pub fn detect_embed_method(data: &[u8]) -> (result: Result<EmbedMethod, ExtractError>)
    ensures
        match result {
            Ok(method) => embed_method_of(data@) == Ok::<EmbedMethod, Failure>(method),
            Err(e) => embed_method_of(data@) == Err::<EmbedMethod, Failure>(e@),
        },
{
    if data.len() >= 24 && matches_at(data, data.len() - 24, &TRAILER) {
        return Ok(EmbedMethod::Appended);
    }
    if let Ok(method) = find_elf_bun_section(data) {
        return Ok(method);
    }
    if let Ok(method) = find_pe_bun_section(data) {
        return Ok(method);
    }
    if let Ok(method) = find_macho_bun_section(data) {
        return Ok(method);
    }
    Err(ExtractError::TrailerNotFound)
}

/// Whether the header at `header` is that of an ELF section named `.bun` at `offset`.
pub open spec fn is_elf_bun_header(
    data: Seq<u8>,
    names: Seq<u8>,
    header: int,
    offset: int,
) -> bool {
    let name = bytes::le_at(data, header, 4);
    &&& header + 32 <= data.len()
    &&& name < names.len()
    &&& name_at(names, name as int) == BUN_SECTION_NAME@
    &&& bytes::le_at(data, header + 24, 8) == offset
}

/// Whether the header at `header` is that of a PE section named `.bun` at `offset`, all of it
/// inside the file.
pub open spec fn is_pe_bun_header(data: Seq<u8>, header: int, offset: int) -> bool {
    &&& header + 40 <= data.len()
    &&& name_at(data.subrange(header, header + 8), 0) == BUN_SECTION_NAME@
    &&& bytes::le_at(data, header + 20, 4) == offset
    &&& offset + bytes::le_at(data, header + 16, 4) <= data.len()
}

/// Whether the header at `header` is that of a Mach-O section named `__bun` at `offset`.
pub open spec fn is_macho_bun_header(data: Seq<u8>, header: int, offset: int) -> bool {
    &&& header + 80 <= data.len()
    &&& data.subrange(header, header + 16) == MACHO_SECTION_NAME@
    &&& bytes::le_at(data, header + 48, 4) == offset
}

proof fn lemma_elf_search(
    data: Seq<u8>,
    names: Seq<u8>,
    table: int,
    entry_size: int,
    count: int,
    index: int,
)
    ensures
        elf_search(data, names, table, entry_size, count, index) matches Ok(method) ==> {
            &&& method is ElfSection
            &&& exists|header: int| #[trigger]
                is_elf_bun_header(data, names, header, method->ElfSection_section_offset as int)
        },
    decreases count - index,
{
    if index < count {
        lemma_elf_search(data, names, table, entry_size, count, index + 1);
        let header = table + index * entry_size;
        if let Ok(method) = elf_search(data, names, table, entry_size, count, index) {
            if elf_search(data, names, table, entry_size, count, index + 1) != Ok::<
                EmbedMethod,
                Failure,
            >(method) {
                assert(is_elf_bun_header(
                    data,
                    names,
                    header,
                    method->ElfSection_section_offset as int,
                ));
            }
        }
    }
}

proof fn lemma_pe_search(data: Seq<u8>, table: int, count: int, index: int)
    ensures
        pe_search(data, table, count, index) matches Ok(method) ==> {
            &&& method is PeSection
            &&& exists|header: int| #[trigger]
                is_pe_bun_header(data, header, method->PeSection_section_offset as int)
        },
    decreases count - index,
{
    if index < count {
        lemma_pe_search(data, table, count, index + 1);
        let header = table + 40 * index;
        bytes::lemma_le_at_bound(data, header + 20);
        if let Ok(method) = pe_search(data, table, count, index) {
            if pe_search(data, table, count, index + 1) != Ok::<EmbedMethod, Failure>(method) {
                assert(is_pe_bun_header(data, header, method->PeSection_section_offset as int));
            }
        }
    }
}

proof fn lemma_macho_sections(data: Seq<u8>, at: int, count: int)
    ensures
        macho_sections(data, at, count) matches Some(Ok(method)) ==> {
            &&& method is MachoSection
            &&& exists|header: int| #[trigger]
                is_macho_bun_header(data, header, method->MachoSection_section_offset as int)
        },
    decreases count,
{
    if count > 0 {
        lemma_macho_sections(data, at + 80, count - 1);
        bytes::lemma_le_at_bound(data, at + 48);
        if let Some(Ok(method)) = macho_sections(data, at, count) {
            if macho_sections(data, at + 80, count - 1) != Some(Ok::<EmbedMethod, Failure>(method)) {
                assert(is_macho_bun_header(data, at, method->MachoSection_section_offset as int));
            }
        }
    }
}

proof fn lemma_macho_search(data: Seq<u8>, at: int, count: int)
    ensures
        macho_search(data, at, count) matches Ok(method) ==> {
            &&& method is MachoSection
            &&& exists|header: int| #[trigger]
                is_macho_bun_header(data, header, method->MachoSection_section_offset as int)
        },
    decreases count,
{
    if count > 0 {
        lemma_macho_search(data, at + bytes::le_at(data, at + 4, 4), count - 1);
        lemma_macho_sections(data, at + 72, bytes::le_at(data, at + 64, 4) as int);
    }
}

/// A trailer at the end of the file always wins. Without one the method tells the container
/// that the file is, and the section that it points to is one named for Bun in that container.
pub proof fn method_fits_file(data: Seq<u8>)
    ensures
        match embed_method_of(data) {
            Ok(EmbedMethod::Appended) => has_trailer(data),
            Ok(EmbedMethod::ElfSection { section_offset }) => {
                &&& !has_trailer(data)
                &&& ELF_MAGIC@.is_prefix_of(data)
                &&& elf_section_names(data) is Ok
                &&& exists|header: int| #[trigger]
                    is_elf_bun_header(
                        data,
                        elf_section_names(data)->Ok_0,
                        header,
                        section_offset as int,
                    )
            },
            Ok(EmbedMethod::PeSection { section_offset }) => {
                &&& !has_trailer(data)
                &&& PE_MAGIC@.is_prefix_of(data)
                &&& exists|header: int| #[trigger]
                    is_pe_bun_header(data, header, section_offset as int)
            },
            Ok(EmbedMethod::MachoSection { section_offset }) => {
                &&& !has_trailer(data)
                &&& bytes::le_at(data, 0, 4) == MACHO_MAGIC_64 || bytes::le_at(data, 0, 4)
                    == MACHO_MAGIC_32
                &&& exists|header: int| #[trigger]
                    is_macho_bun_header(data, header, section_offset as int)
            },
            Err(failure) => !has_trailer(data) && failure == Failure::TrailerNotFound,
        },
{
    if elf_section(data) is Ok {
        let table = bytes::le_at(data, 40, 8) as int;
        let entry_size = bytes::le_at(data, 58, 2) as int;
        let count = bytes::le_at(data, 60, 2) as int;
        lemma_elf_search(data, elf_section_names(data)->Ok_0, table, entry_size, count, 0);
    }
    if pe_section(data) is Ok {
        let header = bytes::le_at(data, 0x3C, 4) as int;
        let count = bytes::le_at(data, header + 6, 2) as int;
        let optional_size = bytes::le_at(data, header + 20, 2) as int;
        lemma_pe_search(data, header + 24 + optional_size, count, 0);
    }
    if macho_section(data) is Ok {
        let ncmds = bytes::le_at(data, 16, 4) as int;
        lemma_macho_search(data, 32, ncmds);
        lemma_macho_search(data, 28, ncmds);
    }
}

} // verus!
