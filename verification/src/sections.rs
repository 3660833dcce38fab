//! Where the sections that hold a payload lie in ELF, PE and Mach-O files, and that they are found.

use vstd::prelude::*;

use crate::bytes;
use crate::bytes::le_at;
use crate::containers;
use crate::error::Failure;
use crate::format::{
    EmbedMethod, BUN_SECTION_NAME, ELF_MAGIC, MACHO_SECTION_NAME, MACHO_SEGMENT_NAME, PE_MAGIC,
    PE_SIGNATURE, TRAILER,
};

verus! {

/// Whether the name at `at` is `.bun`, up to a zero byte or the end of the bytes.
pub open spec fn is_bun_name(bytes: Seq<u8>, at: int) -> bool {
    &&& 0 <= at
    &&& at + 4 <= bytes.len()
    &&& bytes[at] == 0x2e
    &&& bytes[at + 1] == 0x62
    &&& bytes[at + 2] == 0x75
    &&& bytes[at + 3] == 0x6e
    &&& at + 4 == bytes.len() || bytes[at + 4] == 0
}

/// Names are told by their characters.
proof fn lemma_bun_name(bytes: Seq<u8>, at: int)
    requires
        0 <= at <= bytes.len(),
    ensures
        (containers::name_at(bytes, at) == BUN_SECTION_NAME@) == is_bun_name(bytes, at),
{
    reveal_with_fuel(containers::nul_index, 6);
    let name = containers::name_at(bytes, at);
    let bun = BUN_SECTION_NAME@;
    assert(bun.len() == 4 && bun[0] == 0x2e && bun[1] == 0x62 && bun[2] == 0x75 && bun[3] == 0x6e);
    lemma_nul_end(bytes, at);
    if is_bun_name(bytes, at) {
        assert(containers::nul_index(bytes, at) == at + 4);
        assert(name =~= bun);
    }
    if name == bun {
        let end = containers::nul_index(bytes, at);
        assert(name.len() == end - at);
        assert(name[0] == bytes[at] && name[1] == bytes[at + 1] && name[2] == bytes[at + 2]
            && name[3] == bytes[at + 3]);
    }
}

proof fn lemma_nul_end(bytes: Seq<u8>, at: int)
    requires
        0 <= at <= bytes.len(),
    ensures
        at <= containers::nul_index(bytes, at) <= bytes.len(),
        containers::nul_index(bytes, at) < bytes.len() ==> bytes[containers::nul_index(bytes, at)]
            == 0,
    decreases bytes.len() - at,
{
    if at < bytes.len() && bytes[at] != 0 {
        lemma_nul_end(bytes, at + 1);
    }
}

/// Whether the section header at `header` of an ELF file has the name `.bun` among the names that
/// start at `names_at`.
pub open spec fn is_elf_bun(data: Seq<u8>, names_at: int, names_size: int, header: int) -> bool {
    is_bun_name(data.subrange(names_at, names_at + names_size), le_at(data, header, 4) as int)
}

/// Whether `data` is a 64-bit ELF file, and the first of its sections that is named `.bun` is the
/// one with index `k`. The header of the file tells where the section headers start, how long and
/// how many they are, and which of them belongs to the names.
pub open spec fn has_elf_bun(data: Seq<u8>, k: int) -> bool {
    let table = le_at(data, 40, 8) as int;
    let entry_size = le_at(data, 58, 2) as int;
    let count = le_at(data, 60, 2) as int;
    let names_header = table + le_at(data, 62, 2) * entry_size;
    let names_at = le_at(data, names_header + 24, 8) as int;
    let names_size = le_at(data, names_header + 32, 8) as int;
    &&& data.len() >= 64
    &&& data[0] == 0x7f && data[1] == 0x45 && data[2] == 0x4c && data[3] == 0x46
    &&& data[4] == 2
    &&& table > 0
    &&& names_header + entry_size <= data.len()
    &&& names_header + 40 <= data.len()
    &&& names_at + names_size <= data.len()
    &&& 0 <= k < count
    &&& table + k * entry_size + entry_size <= data.len()
    &&& table + k * entry_size + 32 <= data.len()
    &&& le_at(data, table + k * entry_size + 24, 8) <= usize::MAX
    &&& is_elf_bun(data, names_at, names_size, table + k * entry_size)
    &&& forall|i: int|
        0 <= i < k ==> !is_elf_bun(data, names_at, names_size, #[trigger] (table + i * entry_size))
}

proof fn lemma_products(i: int, k: int, entry_size: int)
    requires
        0 <= i <= k,
        0 <= entry_size,
    ensures
        0 <= i * entry_size <= k * entry_size,
{
    assert(0 <= i * entry_size <= k * entry_size) by (nonlinear_arith)
        requires
            0 <= i <= k,
            0 <= entry_size,
    ;
}

proof fn lemma_elf_found(data: Seq<u8>, k: int, index: int)
    requires
        has_elf_bun(data, k),
        data.len() <= usize::MAX,
        0 <= index <= k,
    ensures
        ({
            let table = le_at(data, 40, 8) as int;
            let entry_size = le_at(data, 58, 2) as int;
            containers::elf_search(
                data,
                containers::elf_section_names(data)->Ok_0,
                table,
                entry_size,
                le_at(data, 60, 2) as int,
                index,
            ) == Ok::<EmbedMethod, Failure>(
                EmbedMethod::ElfSection {
                    section_offset: le_at(data, table + k * entry_size + 24, 8) as usize,
                },
            )
        }),
    decreases k - index,
{
    let table = le_at(data, 40, 8) as int;
    let entry_size = le_at(data, 58, 2) as int;
    let names_header = table + le_at(data, 62, 2) * entry_size;
    let names_at = le_at(data, names_header + 24, 8) as int;
    let names_size = le_at(data, names_header + 32, 8) as int;
    let names = containers::elf_section_names(data)->Ok_0;
    assert(names == data.subrange(names_at, names_at + names_size));
    let header = table + index * entry_size;
    lemma_products(index, k, entry_size);
    let name = le_at(data, header, 4) as int;
    if name <= names.len() {
        lemma_bun_name(names, name);
    }
    if index < k {
        assert(!is_elf_bun(data, names_at, names_size, table + index * entry_size));
        lemma_elf_found(data, k, index + 1);
    }
}

proof fn lemma_elf_sound(data: Seq<u8>, index: int)
    requires
        containers::elf_section(data) is Ok,
        0 <= index,
        ({
            let table = le_at(data, 40, 8) as int;
            let entry_size = le_at(data, 58, 2) as int;
            containers::elf_search(
                data,
                containers::elf_section_names(data)->Ok_0,
                table,
                entry_size,
                le_at(data, 60, 2) as int,
                index,
            ) is Ok
        }),
        ({
            let table = le_at(data, 40, 8) as int;
            let entry_size = le_at(data, 58, 2) as int;
            let names_header = table + le_at(data, 62, 2) * entry_size;
            forall|i: int|
                0 <= i < index ==> !is_elf_bun(
                    data,
                    le_at(data, names_header + 24, 8) as int,
                    le_at(data, names_header + 32, 8) as int,
                    #[trigger] (table + i * entry_size),
                )
        }),
    ensures
        exists|k: int| has_elf_bun(data, k),
    decreases le_at(data, 60, 2) - index,
{
    let table = le_at(data, 40, 8) as int;
    let entry_size = le_at(data, 58, 2) as int;
    let names_header = table + le_at(data, 62, 2) * entry_size;
    let names_at = le_at(data, names_header + 24, 8) as int;
    let names_size = le_at(data, names_header + 32, 8) as int;
    let names = containers::elf_section_names(data)->Ok_0;
    let magic = ELF_MAGIC@;
    assert(data.subrange(0, 4)[0] == magic[0] && data.subrange(0, 4)[1] == magic[1]
        && data.subrange(0, 4)[2] == magic[2] && data.subrange(0, 4)[3] == magic[3]);
    lemma_products(0, le_at(data, 62, 2) as int, entry_size);
    lemma_products(0, index, entry_size);
    assert(names == data.subrange(names_at, names_at + names_size));
    let header = table + index * entry_size;
    let name = le_at(data, header, 4) as int;
    if name <= names.len() {
        lemma_bun_name(names, name);
    }
    if is_elf_bun(data, names_at, names_size, header) {
        assert(has_elf_bun(data, index));
    } else {
        lemma_elf_sound(data, index + 1);
    }
}

/// The payload of an ELF file is looked for in the first section named `.bun`, at the offset that
/// its header tells, wherever among the sections it stands; without such a section none is found.
pub proof fn elf_section_is_found(data: Seq<u8>, k: int)
    requires
        data.len() <= usize::MAX,
    ensures
        has_elf_bun(data, k) ==> containers::elf_section(data) == Ok::<EmbedMethod, Failure>(
            EmbedMethod::ElfSection {
                section_offset: le_at(
                    data,
                    le_at(data, 40, 8) + k * le_at(data, 58, 2) + 24,
                    8,
                ) as usize,
            },
        ),
        containers::elf_section(data) is Ok ==> exists|found: int| has_elf_bun(data, found),
{
    if has_elf_bun(data, k) {
        let magic = ELF_MAGIC@;
        assert(magic =~= data.subrange(0, 4));
        lemma_products(0, le_at(data, 62, 2) as int, le_at(data, 58, 2) as int);
        lemma_products(0, k, le_at(data, 58, 2) as int);
        lemma_elf_found(data, k, 0);
    }
    if containers::elf_section(data) is Ok {
        lemma_elf_sound(data, 0);
    }
}

/// Whether the section header at `header` of a PE file has the name `.bun`; a name has eight bytes
/// at most.
pub open spec fn is_pe_bun(data: Seq<u8>, header: int) -> bool {
    &&& data[header] == 0x2e
    &&& data[header + 1] == 0x62
    &&& data[header + 2] == 0x75
    &&& data[header + 3] == 0x6e
    &&& data[header + 4] == 0
}

/// The end of the section that the header at `header` of a PE file describes.
pub open spec fn pe_section_end(data: Seq<u8>, header: int) -> int {
    (le_at(data, header + 20, 4) + le_at(data, header + 16, 4)) as int
}

/// Where the section headers of a PE file start: behind its header and the optional one.
pub open spec fn pe_table(data: Seq<u8>) -> int {
    let header = le_at(data, 0x3c, 4) as int;
    header + 24 + le_at(data, header + 20, 2)
}

/// Whether `data` is a PE file, and the first of its sections that is named `.bun` and lies inside
/// the file is the one with index `k`. The section headers follow the optional header.
pub open spec fn has_pe_bun(data: Seq<u8>, k: int) -> bool {
    let header = le_at(data, 0x3c, 4) as int;
    let count = le_at(data, header + 6, 2) as int;
    let table = header + 24 + le_at(data, header + 20, 2);
    &&& data.len() >= 64
    &&& data[0] == 0x4d && data[1] == 0x5a
    &&& header + 22 <= data.len()
    &&& data[header] == 0x50 && data[header + 1] == 0x45 && data[header + 2] == 0 && data[header
        + 3] == 0
    &&& 0 <= k < count
    &&& table + 40 * k + 40 <= data.len()
    &&& is_pe_bun(data, table + 40 * k)
    &&& pe_section_end(data, table + 40 * k) <= data.len()
    &&& forall|i: int|
        0 <= i < k && is_pe_bun(data, #[trigger] (table + 40 * i)) ==> data.len() < pe_section_end(
            data,
            table + 40 * i,
        ) <= usize::MAX
}

proof fn lemma_pe_name(data: Seq<u8>, header: int)
    requires
        0 <= header,
        header + 40 <= data.len(),
    ensures
        (containers::name_at(data.subrange(header, header + 8), 0) == BUN_SECTION_NAME@)
            == is_pe_bun(data, header),
{
    lemma_bun_name(data.subrange(header, header + 8), 0);
}

proof fn lemma_pe_found(data: Seq<u8>, k: int, index: int)
    requires
        has_pe_bun(data, k),
        data.len() <= usize::MAX,
        0 <= index <= k,
    ensures
        ({
            let header = le_at(data, 0x3c, 4) as int;
            let table = header + 24 + le_at(data, header + 20, 2);
            containers::pe_search(data, table, le_at(data, header + 6, 2) as int, index) == Ok::<
                EmbedMethod,
                Failure,
            >(
                EmbedMethod::PeSection {
                    section_offset: le_at(data, table + 40 * k + 20, 4) as usize,
                },
            )
        }),
    decreases k - index,
{
    let header = le_at(data, 0x3c, 4) as int;
    let table = header + 24 + le_at(data, header + 20, 2);
    lemma_pe_name(data, table + 40 * index);
    if index < k {
        lemma_pe_found(data, k, index + 1);
    }
}

proof fn lemma_pe_sound(data: Seq<u8>, index: int)
    requires
        containers::pe_section(data) is Ok,
        0 <= index,
        ({
            let header = le_at(data, 0x3c, 4) as int;
            let table = header + 24 + le_at(data, header + 20, 2);
            &&& containers::pe_search(data, table, le_at(data, header + 6, 2) as int, index) is Ok
            &&& forall|i: int|
                0 <= i < index && is_pe_bun(data, #[trigger] (table + 40 * i)) ==> data.len()
                    < pe_section_end(data, table + 40 * i) <= usize::MAX
        }),
    ensures
        exists|k: int| has_pe_bun(data, k),
    decreases le_at(data, le_at(data, 0x3c, 4) as int + 6, 2) - index,
{
    let header = le_at(data, 0x3c, 4) as int;
    let table = header + 24 + le_at(data, header + 20, 2);
    assert(data.subrange(0, 2)[0] == PE_MAGIC@[0] && data.subrange(0, 2)[1] == PE_MAGIC@[1]);
    let signature = data.subrange(header, header + 4);
    assert(signature[0] == PE_SIGNATURE@[0] && signature[1] == PE_SIGNATURE@[1] && signature[2]
        == PE_SIGNATURE@[2] && signature[3] == PE_SIGNATURE@[3]);
    lemma_pe_name(data, table + 40 * index);
    if is_pe_bun(data, table + 40 * index) && pe_section_end(data, table + 40 * index)
        <= data.len() {
        assert(has_pe_bun(data, index));
    } else {
        lemma_pe_sound(data, index + 1);
    }
}

/// The payload of a PE file is looked for in the first section named `.bun` that lies inside the
/// file, at the offset that its header tells; without such a section none is found.
pub proof fn pe_section_is_found(data: Seq<u8>, k: int)
    requires
        data.len() <= usize::MAX,
    ensures
        has_pe_bun(data, k) ==> containers::pe_section(data) == Ok::<EmbedMethod, Failure>(
            EmbedMethod::PeSection {
                section_offset: le_at(
                    data,
                    pe_table(data) + 40 * k + 20,
                    4,
                ) as usize,
            },
        ),
        containers::pe_section(data) is Ok ==> exists|found: int| has_pe_bun(data, found),
{
    if has_pe_bun(data, k) {
        let header = le_at(data, 0x3c, 4) as int;
        assert(PE_MAGIC@ =~= data.subrange(0, 2));
        assert(PE_SIGNATURE@ =~= data.subrange(header, header + 4));
        lemma_pe_found(data, k, 0);
    }
    if containers::pe_section(data) is Ok {
        lemma_pe_sound(data, 0);
    }
}

/// Where the load command with index `k` of a Mach-O file lies: the commands follow one another,
/// and each tells its own size.
pub open spec fn command_place(data: Seq<u8>, first: int, k: int) -> int
    decreases k,
{
    if k <= 0 {
        first
    } else {
        command_place(data, first, k - 1) + le_at(data, command_place(data, first, k - 1) + 4, 4)
    }
}

/// Whether the 16 bytes at `at` are a name of five characters, padded with zeros.
pub open spec fn is_padded_name(data: Seq<u8>, at: int, a: u8, b: u8, c: u8) -> bool {
    &&& data[at] == 0x5f && data[at + 1] == 0x5f
    &&& data[at + 2] == a && data[at + 3] == b && data[at + 4] == c
    &&& forall|i: int| 5 <= i < 16 ==> data[#[trigger] (at + i)] == 0
}

/// Whether the load command at `at` is a 64-bit segment named `__BUN`, and the section with index
/// `j` among its sections is named `__bun`.
pub open spec fn has_bun_section(data: Seq<u8>, at: int, j: int) -> bool {
    let section = at + 72 + 80 * j;
    &&& le_at(data, at, 4) == 0x19
    &&& le_at(data, at + 4, 4) >= 72
    &&& is_padded_name(data, at + 8, 0x42, 0x55, 0x4e)
    &&& 0 <= j < le_at(data, at + 64, 4)
    &&& section + 80 <= data.len()
    &&& is_padded_name(data, section, 0x62, 0x75, 0x6e)
}

/// Where the load commands of a Mach-O file start, by its magic number.
pub open spec fn first_command(data: Seq<u8>) -> int {
    if le_at(data, 0, 4) == 0xfeed_facf {
        32
    } else {
        28
    }
}

/// Whether `data` is a Mach-O file, and the first of its sections that is named `__bun` and belongs
/// to a segment named `__BUN` is the one with index `j` in the load command with index `k`. The
/// commands up to that one lie inside the file; those in front of it may be anything else.
pub open spec fn has_macho_bun(data: Seq<u8>, k: int, j: int) -> bool {
    let first = first_command(data);
    &&& data.len() >= 32
    &&& le_at(data, 0, 4) == 0xfeed_facf || le_at(data, 0, 4) == 0xfeed_face
    &&& 0 <= k < le_at(data, 16, 4)
    &&& forall|i: int|
        #![trigger command_place(data, first, i)]
        0 <= i <= k ==> {
            let at = command_place(data, first, i);
            &&& at + 8 <= data.len()
            &&& le_at(data, at + 4, 4) >= 8
            &&& at + le_at(data, at + 4, 4) <= data.len()
        }
    &&& has_bun_section(data, command_place(data, first, k), j)
    &&& forall|i: int| 0 <= i < j ==> !has_bun_section(data, command_place(data, first, k), i)
    &&& forall|i: int, s: int|
        0 <= i < k ==> !(#[trigger] has_bun_section(data, command_place(data, first, i), s))
}

proof fn lemma_padded_name(data: Seq<u8>, at: int)
    requires
        0 <= at,
        at + 16 <= data.len(),
    ensures
        (data.subrange(at, at + 16) == MACHO_SEGMENT_NAME@) == is_padded_name(
            data,
            at,
            0x42,
            0x55,
            0x4e,
        ),
        (data.subrange(at, at + 16) == MACHO_SECTION_NAME@) == is_padded_name(
            data,
            at,
            0x62,
            0x75,
            0x6e,
        ),
{
    let name = data.subrange(at, at + 16);
    assert(forall|i: int| 0 <= i < 16 ==> name[i] == data[at + i]);
    let segment = MACHO_SEGMENT_NAME@;
    let section = MACHO_SECTION_NAME@;
    assert(segment.len() == 16 && segment[0] == 0x5f && segment[1] == 0x5f && segment[2] == 0x42
        && segment[3] == 0x55 && segment[4] == 0x4e);
    assert(section.len() == 16 && section[0] == 0x5f && section[1] == 0x5f && section[2] == 0x62
        && section[3] == 0x75 && section[4] == 0x6e);
    assert(forall|i: int| 5 <= i < 16 ==> segment[i] == 0 && section[i] == 0) by {
        assert(segment[5] == 0 && segment[6] == 0 && segment[7] == 0 && segment[8] == 0
            && segment[9] == 0 && segment[10] == 0 && segment[11] == 0 && segment[12] == 0
            && segment[13] == 0 && segment[14] == 0 && segment[15] == 0);
        assert(section[5] == 0 && section[6] == 0 && section[7] == 0 && section[8] == 0
            && section[9] == 0 && section[10] == 0 && section[11] == 0 && section[12] == 0
            && section[13] == 0 && section[14] == 0 && section[15] == 0);
    }
    assert(name[0] == data[at + 0] && name[1] == data[at + 1] && name[2] == data[at + 2] && name[3]
        == data[at + 3] && name[4] == data[at + 4]);
    if is_padded_name(data, at, 0x42, 0x55, 0x4e) {
        assert forall|i: int| 0 <= i < 16 implies name[i] == segment[i] by {
            if i >= 5 {
                assert(data[at + i] == 0);
            }
        }
        assert(name =~= segment);
    }
    if is_padded_name(data, at, 0x62, 0x75, 0x6e) {
        assert forall|i: int| 0 <= i < 16 implies name[i] == section[i] by {
            if i >= 5 {
                assert(data[at + i] == 0);
            }
        }
        assert(name =~= section);
    }
    if name == segment || name == section {
        assert forall|i: int| 5 <= i < 16 implies data[#[trigger] (at + i)] == 0 by {
            assert(name[i] == data[at + i]);
        }
    }
}

/// What the search through the sections of a segment gives, from the section with this index on.
proof fn lemma_macho_sections(data: Seq<u8>, at: int, index: int)
    requires
        data.len() + 80 <= usize::MAX,
        0 <= at,
        at + 72 <= data.len(),
        0 <= index <= le_at(data, at + 64, 4),
        index > 0 ==> at + 72 + 80 * index <= data.len(),
        le_at(data, at, 4) == 0x19,
        le_at(data, at + 4, 4) >= 72,
        is_padded_name(data, at + 8, 0x42, 0x55, 0x4e),
        forall|i: int| 0 <= i < index ==> !has_bun_section(data, at, i),
    ensures
        ({
            let found = containers::macho_sections(
                data,
                at + 72 + 80 * index,
                le_at(data, at + 64, 4) - index,
            );
            match found {
                Some(Ok(method)) => exists|j: int|
                    #![trigger has_bun_section(data, at, j)]
                    {
                        &&& has_bun_section(data, at, j)
                        &&& forall|i: int| 0 <= i < j ==> !has_bun_section(data, at, i)
                        &&& method == (EmbedMethod::MachoSection {
                            section_offset: le_at(data, at + 72 + 80 * j + 48, 4) as usize,
                        })
                    },
                Some(Err(_)) => false,
                None => forall|i: int| !has_bun_section(data, at, i),
            }
        }),
    decreases le_at(data, at + 64, 4) - index,
{
    let count = le_at(data, at + 64, 4) as int;
    let section = at + 72 + 80 * index;
    if index < count && section + 80 <= data.len() {
        lemma_padded_name(data, section);
        if is_padded_name(data, section, 0x62, 0x75, 0x6e) {
            assert(has_bun_section(data, at, index));
        } else {
            assert(!has_bun_section(data, at, index));
            lemma_macho_sections(data, at, index + 1);
        }
    } else {
        assert forall|i: int| !has_bun_section(data, at, i) by {
            if has_bun_section(data, at, i) {
                assert(i >= index);
            }
        }
    }
}

/// Whether the load command at `at` lies inside the file.
spec fn is_command(data: Seq<u8>, at: int) -> bool {
    &&& 0 <= at
    &&& at + 8 <= data.len()
    &&& le_at(data, at + 4, 4) >= 8
    &&& at + le_at(data, at + 4, 4) <= data.len()
}

/// What the search does at a load command: it ends there with the first `__bun` section, or goes
/// on with the next command.
proof fn lemma_macho_command(data: Seq<u8>, at: int, count: int)
    requires
        data.len() + 80 <= usize::MAX,
        is_command(data, at),
        count > 0,
    ensures
        (exists|j: int| #[trigger] has_bun_section(data, at, j)) ==> exists|j: int|
            #![trigger has_bun_section(data, at, j)]
            {
                &&& has_bun_section(data, at, j)
                &&& forall|i: int| 0 <= i < j ==> !has_bun_section(data, at, i)
                &&& containers::macho_search(data, at, count) == Ok::<EmbedMethod, Failure>(
                    EmbedMethod::MachoSection {
                        section_offset: le_at(data, at + 72 + 80 * j + 48, 4) as usize,
                    },
                )
            },
        (forall|j: int| !has_bun_section(data, at, j)) ==> containers::macho_search(
            data,
            at,
            count,
        ) == containers::macho_search(data, at + le_at(data, at + 4, 4), count - 1),
{
    let size = le_at(data, at + 4, 4);
    if le_at(data, at, 4) == 0x19 && size >= 72 {
        lemma_padded_name(data, at + 8);
        assert(at + 8 + 16 == at + 24);
        if is_padded_name(data, at + 8, 0x42, 0x55, 0x4e) {
            lemma_macho_sections(data, at, 0);
        }
    }
}

proof fn lemma_first_is_unique(data: Seq<u8>, at: int, j: int, other: int)
    requires
        has_bun_section(data, at, j),
        has_bun_section(data, at, other),
        forall|i: int| 0 <= i < j ==> !has_bun_section(data, at, i),
        forall|i: int| 0 <= i < other ==> !has_bun_section(data, at, i),
    ensures
        j == other,
{
    if j < other {
        assert(!has_bun_section(data, at, j));
    } else if other < j {
        assert(!has_bun_section(data, at, other));
    }
}

proof fn lemma_places(data: Seq<u8>, first: int, i: int)
    requires
        0 <= first,
    ensures
        0 <= command_place(data, first, i),
    decreases i,
{
    if i > 0 {
        lemma_places(data, first, i - 1);
    }
}

proof fn lemma_macho_found(data: Seq<u8>, k: int, j: int, index: int)
    requires
        data.len() + 80 <= usize::MAX,
        has_macho_bun(data, k, j),
        0 <= index <= k,
    ensures
        ({
            let first = first_command(data);
            containers::macho_search(
                data,
                command_place(data, first, index),
                le_at(data, 16, 4) - index,
            ) == Ok::<EmbedMethod, Failure>(
                EmbedMethod::MachoSection {
                    section_offset: le_at(
                        data,
                        command_place(data, first, k) + 72 + 80 * j + 48,
                        4,
                    ) as usize,
                },
            )
        }),
    decreases k - index,
{
    let first = first_command(data);
    let at = command_place(data, first, index);
    lemma_places(data, first, index);
    assert(is_command(data, at));
    lemma_macho_command(data, at, le_at(data, 16, 4) - index);
    if index < k {
        assert forall|s: int| !has_bun_section(data, at, s) by {
            assert(!has_bun_section(data, command_place(data, first, index), s));
        }
        lemma_macho_found(data, k, j, index + 1);
        assert(command_place(data, first, index + 1) == at + le_at(data, at + 4, 4));
    } else {
        assert(has_bun_section(data, at, j));
        let other = choose|other: int|
            #![trigger has_bun_section(data, at, other)]
            {
                &&& has_bun_section(data, at, other)
                &&& forall|i: int| 0 <= i < other ==> !has_bun_section(data, at, i)
                &&& containers::macho_search(data, at, le_at(data, 16, 4) - index) == Ok::<
                    EmbedMethod,
                    Failure,
                >(
                    EmbedMethod::MachoSection {
                        section_offset: le_at(data, at + 72 + 80 * other + 48, 4) as usize,
                    },
                )
            };
        lemma_first_is_unique(data, at, j, other);
    }
}

proof fn lemma_macho_sound(data: Seq<u8>, index: int)
    requires
        data.len() + 80 <= usize::MAX,
        data.len() >= 32,
        le_at(data, 0, 4) == 0xfeed_facf || le_at(data, 0, 4) == 0xfeed_face,
        0 <= index <= le_at(data, 16, 4),
        containers::macho_search(
            data,
            command_place(data, first_command(data), index),
            le_at(data, 16, 4) - index,
        ) is Ok,
        forall|i: int|
            #![trigger command_place(data, first_command(data), i)]
            0 <= i < index ==> {
                let at = command_place(data, first_command(data), i);
                &&& at + 8 <= data.len()
                &&& le_at(data, at + 4, 4) >= 8
                &&& at + le_at(data, at + 4, 4) <= data.len()
            },
        forall|i: int, s: int|
            0 <= i < index ==> !(#[trigger] has_bun_section(
                data,
                command_place(data, first_command(data), i),
                s,
            )),
    ensures
        exists|k: int, j: int| has_macho_bun(data, k, j),
    decreases le_at(data, 16, 4) - index,
{
    let first = first_command(data);
    let at = command_place(data, first, index);
    let count = le_at(data, 16, 4) - index;
    lemma_places(data, first, index);
    assert(is_command(data, at));
    lemma_macho_command(data, at, count);
    if exists|j: int| #[trigger] has_bun_section(data, at, j) {
        let j = choose|j: int|
            #![trigger has_bun_section(data, at, j)]
            has_bun_section(data, at, j) && forall|i: int|
                0 <= i < j ==> !has_bun_section(data, at, i);
        assert(has_macho_bun(data, index, j));
    } else {
        assert(command_place(data, first, index + 1) == at + le_at(data, at + 4, 4));
        lemma_macho_sound(data, index + 1);
    }
}

/// The payload of a Mach-O file is looked for in the first section named `__bun` of a segment named
/// `__BUN`, at the offset that its header tells, whatever load commands stand in front; without
/// such a section none is found.
pub proof fn macho_section_is_found(data: Seq<u8>, k: int, j: int)
    requires
        data.len() + 80 <= usize::MAX,
    ensures
        has_macho_bun(data, k, j) ==> containers::macho_section(data) == Ok::<
            EmbedMethod,
            Failure,
        >(
            EmbedMethod::MachoSection {
                section_offset: le_at(
                    data,
                    command_place(data, first_command(data), k) + 72 + 80 * j + 48,
                    4,
                ) as usize,
            },
        ),
        containers::macho_section(data) is Ok ==> exists|command: int, section: int|
            has_macho_bun(data, command, section),
{
    if has_macho_bun(data, k, j) {
        lemma_macho_found(data, k, j, 0);
    }
    if containers::macho_section(data) is Ok {
        lemma_macho_sound(data, 0);
    }
}

/// Why no section is found. A file of another kind has none to look for; one that is damaged is told
/// from one that merely has no section for a payload.
pub proof fn missing_sections(data: Seq<u8>)
    requires
        data.len() + 80 <= usize::MAX,
    ensures
        data.len() < 64 || data[0] != 0x7f || data[1] != 0x45 || data[2] != 0x4c || data[3] != 0x46
            ==> containers::elf_section(data) == Err::<EmbedMethod, Failure>(
            Failure::TrailerNotFound,
        ),
        data.len() >= 64 && data[0] == 0x7f && data[1] == 0x45 && data[2] == 0x4c && data[3] == 0x46
            ==> {
            &&& data[4] != 2 ==> containers::elf_section(data) == Err::<EmbedMethod, Failure>(
                Failure::InvalidElf,
            )
            &&& data[4] == 2 && le_at(data, 40, 8) <= usize::MAX && (le_at(data, 40, 8) == 0
                || le_at(data, 60, 2) == 0) ==> containers::elf_section(data) == Err::<
                EmbedMethod,
                Failure,
            >(Failure::BunSectionNotFound)
        },
        data.len() < 64 || data[0] != 0x4d || data[1] != 0x5a ==> containers::pe_section(data)
            == Err::<EmbedMethod, Failure>(Failure::TrailerNotFound),
        data.len() >= 64 && data[0] == 0x4d && data[1] == 0x5a ==> {
            let header = le_at(data, 0x3c, 4) as int;
            &&& header + 4 > data.len() || data[header] != 0x50 || data[header + 1] != 0x45
                || data[header + 2] != 0 || data[header + 3] != 0 ==> containers::pe_section(data)
                == Err::<EmbedMethod, Failure>(Failure::InvalidPe)
            &&& header + 22 <= data.len() && data[header] == 0x50 && data[header + 1] == 0x45
                && data[header + 2] == 0 && data[header + 3] == 0 && le_at(data, header + 6, 2) == 0
                && pe_table(data) <= usize::MAX ==> containers::pe_section(data) == Err::<
                EmbedMethod,
                Failure,
            >(Failure::BunSectionNotFound)
        },
        data.len() < 32 ==> containers::macho_section(data) == Err::<EmbedMethod, Failure>(
            Failure::TrailerNotFound,
        ),
        data.len() >= 32 && le_at(data, 0, 4) != 0xfeed_facf && le_at(data, 0, 4) != 0xfeed_face
            ==> containers::macho_section(data) == Err::<EmbedMethod, Failure>(
            Failure::InvalidMachO,
        ),
        data.len() >= 32 && (le_at(data, 0, 4) == 0xfeed_facf || le_at(data, 0, 4) == 0xfeed_face)
            && le_at(data, 16, 4) == 0 ==> containers::macho_section(data) == Err::<
            EmbedMethod,
            Failure,
        >(Failure::BunSectionNotFound),
{
    let magic = ELF_MAGIC@;
    if magic.is_prefix_of(data) {
        assert(data.subrange(0, 4)[0] == magic[0] && data.subrange(0, 4)[1] == magic[1]
            && data.subrange(0, 4)[2] == magic[2] && data.subrange(0, 4)[3] == magic[3]);
    }
    if data.len() >= 64 && data[0] == 0x7f && data[1] == 0x45 && data[2] == 0x4c && data[3] == 0x46 {
        assert(magic =~= data.subrange(0, 4));
    }
    let mz = PE_MAGIC@;
    if mz.is_prefix_of(data) {
        assert(data.subrange(0, 2)[0] == mz[0] && data.subrange(0, 2)[1] == mz[1]);
    }
    if data.len() >= 64 && data[0] == 0x4d && data[1] == 0x5a {
        assert(mz =~= data.subrange(0, 2));
        let header = le_at(data, 0x3c, 4) as int;
        let signature = PE_SIGNATURE@;
        if header + 4 <= data.len() {
            let own = data.subrange(header, header + 4);
            assert(own[0] == data[header] && own[1] == data[header + 1] && own[2] == data[header
                + 2] && own[3] == data[header + 3]);
            assert(signature[0] == 0x50 && signature[1] == 0x45 && signature[2] == 0 && signature[3]
                == 0);
            if data[header] == 0x50 && data[header + 1] == 0x45 && data[header + 2] == 0
                && data[header + 3] == 0 {
                assert(own =~= signature);
            }
        }
    }
}

/// Whether Bun's trailer, `"\n---- Bun! ----\n"`, stands in front of the last eight bytes.
pub open spec fn ends_with_trailer(data: Seq<u8>) -> bool {
    let at = data.len() - 24;
    &&& data.len() >= 24
    &&& data[at] == 0x0a
    &&& data[at + 1] == 0x2d && data[at + 2] == 0x2d && data[at + 3] == 0x2d && data[at + 4] == 0x2d
    &&& data[at + 5] == 0x20
    &&& data[at + 6] == 0x42 && data[at + 7] == 0x75 && data[at + 8] == 0x6e && data[at + 9] == 0x21
    &&& data[at + 10] == 0x20
    &&& data[at + 11] == 0x2d && data[at + 12] == 0x2d && data[at + 13] == 0x2d && data[at + 14]
        == 0x2d
    &&& data[at + 15] == 0x0a
}

proof fn lemma_trailer(data: Seq<u8>)
    ensures
        containers::has_trailer(data) == ends_with_trailer(data),
{
    if data.len() >= 24 {
        let at = data.len() - 24;
        let own = data.subrange(at, at + 16);
        let trailer = TRAILER@;
        assert(trailer.len() == 16 && trailer[0] == 0x0a && trailer[1] == 0x2d && trailer[2] == 0x2d
            && trailer[3] == 0x2d && trailer[4] == 0x2d && trailer[5] == 0x20 && trailer[6] == 0x42
            && trailer[7] == 0x75 && trailer[8] == 0x6e && trailer[9] == 0x21 && trailer[10] == 0x20
            && trailer[11] == 0x2d && trailer[12] == 0x2d && trailer[13] == 0x2d && trailer[14]
            == 0x2d && trailer[15] == 0x0a);
        assert(own[0] == data[at] && own[1] == data[at + 1] && own[2] == data[at + 2] && own[3]
            == data[at + 3] && own[4] == data[at + 4] && own[5] == data[at + 5] && own[6]
            == data[at + 6] && own[7] == data[at + 7] && own[8] == data[at + 8] && own[9]
            == data[at + 9] && own[10] == data[at + 10] && own[11] == data[at + 11] && own[12]
            == data[at + 12] && own[13] == data[at + 13] && own[14] == data[at + 14] && own[15]
            == data[at + 15]);
        if ends_with_trailer(data) {
            assert(own =~= trailer);
        }
    }
}

/// How a payload is embedded. A trailer at the end wins, whatever the file is. Without one, the
/// payload lies in the section for it of an ELF, PE or Mach-O file, and if there is no such section
/// the executable is refused.
pub proof fn payload_is_located(data: Seq<u8>, k: int, j: int)
    requires
        data.len() + 80 <= usize::MAX,
    ensures
        ends_with_trailer(data) ==> containers::embed_method_of(data) == Ok::<
            EmbedMethod,
            Failure,
        >(EmbedMethod::Appended),
        !ends_with_trailer(data) && has_elf_bun(data, k) ==> containers::embed_method_of(data)
            == Ok::<EmbedMethod, Failure>(
            EmbedMethod::ElfSection {
                section_offset: le_at(
                    data,
                    le_at(data, 40, 8) + k * le_at(data, 58, 2) + 24,
                    8,
                ) as usize,
            },
        ),
        !ends_with_trailer(data) && has_pe_bun(data, k) ==> containers::embed_method_of(data)
            == Ok::<EmbedMethod, Failure>(
            EmbedMethod::PeSection {
                section_offset: le_at(
                    data,
                    pe_table(data) + 40 * k + 20,
                    4,
                ) as usize,
            },
        ),
        !ends_with_trailer(data) && has_macho_bun(data, k, j) ==> containers::embed_method_of(data)
            == Ok::<EmbedMethod, Failure>(
            EmbedMethod::MachoSection {
                section_offset: le_at(
                    data,
                    command_place(data, first_command(data), k) + 72 + 80 * j + 48,
                    4,
                ) as usize,
            },
        ),
        !ends_with_trailer(data) && (forall|i: int| !has_elf_bun(data, i)) && (forall|i: int|
            !has_pe_bun(data, i)) && (forall|i: int, s: int| !has_macho_bun(data, i, s))
            ==> containers::embed_method_of(data) == Err::<EmbedMethod, Failure>(
            Failure::TrailerNotFound,
        ),
{
    lemma_trailer(data);
    elf_section_is_found(data, k);
    pe_section_is_found(data, k);
    macho_section_is_found(data, k, j);
    bytes::lowest_byte_first(data, 0);
}

} // verus!
