//! The payload of a Bun executable: its module table and the modules themselves.

use vstd::prelude::*;

use crate::bytes;
use crate::containers;
use crate::containers::detect_embed_method;
use crate::error;
use crate::error::{ExtractError, Failure};
use crate::format::{
    BunVersion, EmbedMethod, Encoding, FileSide, Loader, Module, ModuleFormat, ModuleView, Offsets,
    StringPointer, CANDIDATE_STRUCT_SIZES, LAST_LOADER_TAG, MODULE_NAME_PREFIX, OFFSETS_SIZE,
    SIX_POINTER_STRUCT_SIZE,
};
use crate::text;

verus! {

/// The most modules that a module table may list.
pub const MAX_MODULES: usize = 10000;

/// Whether the module record at `at` starts with a pointer to a name under Bun's virtual root.
pub open spec fn names_module(data: Seq<u8>, payload_base: int, at: int) -> bool {
    let pointer = crate::format::string_pointer_at(data, at);
    let start = payload_base + pointer.offset;
    &&& at + 8 <= data.len()
    &&& pointer.length > 0
    &&& start + pointer.length <= data.len()
    &&& match text::utf8_text(data.subrange(start, start + pointer.length)) {
        Some(name) => MODULE_NAME_PREFIX@.is_prefix_of(name),
        None => false,
    }
}

/// Whether the module table fits records of this size: they fill it, are not too many, and
/// each names a module.
pub open spec fn size_fits(
    data: Seq<u8>,
    payload_base: int,
    table: int,
    length: int,
    size: int,
) -> bool {
    &&& length > 0
    &&& length % size == 0
    &&& length / size <= MAX_MODULES
    &&& forall|i: int|
        0 <= i < length / size ==> names_module(data, payload_base, #[trigger] (table + i * size))
}

/// The first candidate size, from the one with this index on, that fits the module table.
pub open spec fn first_size(
    data: Seq<u8>,
    payload_base: int,
    table: int,
    length: int,
    candidate: int,
) -> Result<int, Failure>
    decreases CANDIDATE_STRUCT_SIZES@.len() - candidate,
{
    if candidate >= CANDIDATE_STRUCT_SIZES@.len() {
        Err(Failure::ModuleSizeDetectionFailed { modules_length: length })
    } else if size_fits(
        data,
        payload_base,
        table,
        length,
        CANDIDATE_STRUCT_SIZES@[candidate] as int,
    ) {
        Ok(CANDIDATE_STRUCT_SIZES@[candidate] as int)
    } else {
        first_size(data, payload_base, table, length, candidate + 1)
    }
}

/// The size of the module records, told from the module table.
pub open spec fn module_struct_size(
    data: Seq<u8>,
    payload_base: int,
    modules_offset: int,
    modules_length: int,
) -> Result<int, Failure> {
    if payload_base + modules_offset > usize::MAX {
        Err(Failure::OffsetOverflow)
    } else {
        first_size(data, payload_base, payload_base + modules_offset, modules_length, 0)
    }
}

/// `base + offset`, if it fits in the address space.
pub fn checked_offset(base: usize, offset: usize) -> (result: Result<usize, ExtractError>)
    ensures
        match result {
            Ok(sum) => sum == base + offset,
            Err(e) => base + offset > usize::MAX && e@ == Failure::OffsetOverflow,
        },
{
    match base.checked_add(offset) {
        Some(sum) => Ok(sum),
        None => Err(ExtractError::OffsetOverflow),
    }
}

/// Whether the module record at `at` names a module.
fn has_module_name(data: &[u8], payload_base: usize, at: usize) -> (yes: bool)
    ensures
        yes == names_module(data@, payload_base as int, at as int),
{
    if at > data.len() || data.len() - at < 8 {
        return false;
    }
    let pointer = StringPointer::read_at(data, at);
    let start: usize = match payload_base.checked_add(pointer.offset as usize) {
        Some(start) => start,
        None => {
            return false;
        },
    };
    if pointer.length == 0 || start > data.len() || pointer.length as usize > data.len() - start {
        return false;
    }
    let bytes = vstd::slice::slice_subrange(data, start, start + pointer.length as usize);
    match text::utf8_string(bytes) {
        Some(name) => text::starts_with(&text::chars_of(name.as_str()), MODULE_NAME_PREFIX),
        None => false,
    }
}

/// Whether the module table fits records of this size.
fn has_size(data: &[u8], payload_base: usize, table: usize, length: u32, size: usize) -> (yes: bool)
    requires
        size > 0,
    ensures
        yes == size_fits(data@, payload_base as int, table as int, length as int, size as int),
{
    let total: usize = length as usize;
    if total == 0 || total % size != 0 || total / size > MAX_MODULES {
        return false;
    }
    let count: usize = total / size;
    let mut i: usize = 0;
    while i < count
        invariant
            i <= count,
            data.len() == data@.len(),
            count == length as int / size as int,
            size > 0,
            length <= usize::MAX,
            forall|j: int|
                0 <= j < i ==> names_module(
                    data@,
                    payload_base as int,
                    #[trigger] (table + j * size),
                ),
        decreases count - i,
    {
        proof {
            assert(i * size <= length) by (nonlinear_arith)
                requires
                    i < length as int / size as int,
                    size > 0,
            ;
        }
        let named: bool = match table.checked_add(i * size) {
            Some(at) => has_module_name(data, payload_base, at),
            None => false,
        };
        if !named {
            assert(!names_module(data@, payload_base as int, table + i * size));
            return false;
        }
        i = i + 1;
    }
    true
}

/// Finds the size of the module records.
pub fn detect_module_struct_size(
    data: &[u8],
    payload_base: usize,
    modules_offset: u32,
    modules_length: u32,
) -> (result: Result<usize, ExtractError>)
    ensures
        match result {
            Ok(size) => module_struct_size(
                data@,
                payload_base as int,
                modules_offset as int,
                modules_length as int,
            ) == Ok::<int, Failure>(size as int),
            Err(e) => module_struct_size(
                data@,
                payload_base as int,
                modules_offset as int,
                modules_length as int,
            ) == Err::<int, Failure>(e@),
        },
{
    let table: usize = checked_offset(payload_base, modules_offset as usize)?;
    let candidates = CANDIDATE_STRUCT_SIZES;
    let mut k: usize = 0;
    while k < candidates.len()
        invariant
            candidates == CANDIDATE_STRUCT_SIZES,
            k <= candidates@.len(),
            module_struct_size(
                data@,
                payload_base as int,
                modules_offset as int,
                modules_length as int,
            ) == first_size(
                data@,
                payload_base as int,
                table as int,
                modules_length as int,
                k as int,
            ),
        decreases candidates@.len() - k,
    {
        proof {
            lemma_candidates(k as int);
        }
        if has_size(data, payload_base, table, modules_length, candidates[k]) {
            return Ok(candidates[k]);
        }
        k = k + 1;
    }
    Err(ExtractError::ModuleSizeDetectionFailed { modules_length })
}

/// Every candidate has room for four string pointers and four tags, and none is larger than
/// 128 bytes.
pub proof fn lemma_candidates(k: int)
    requires
        0 <= k < CANDIDATE_STRUCT_SIZES@.len(),
    ensures
        36 <= CANDIDATE_STRUCT_SIZES@[k] <= 128,
{
}

/// The four tags of a module record.
pub type Tags = (Encoding, Loader, ModuleFormat, FileSide);

/// The tags of a record that holds none.
pub open spec fn default_tags() -> Tags {
    (Encoding::Binary, Loader::File, ModuleFormat::Unset, FileSide::Server)
}

/// The tags at `at`, if the four bytes there are inside the data and each has a meaning.
pub open spec fn tags_at(data: Seq<u8>, at: int) -> Option<Tags> {
    if at + 4 <= data.len() && data[at] <= 2 && data[at + 1] <= LAST_LOADER_TAG && data[at + 2] <= 2
        && data[at + 3] <= 1 {
        Some(
            (
                Encoding::of_tag(data[at]),
                Loader::of_tag(data[at + 1]),
                ModuleFormat::of_tag(data[at + 2]),
                FileSide::of_tag(data[at + 3]),
            ),
        )
    } else {
        None
    }
}

/// Where the tags of a record of this size may lie, the likeliest place first: right behind
/// four string pointers, in the last four bytes, or in front of four bytes of padding. In the
/// packed layout with six string pointers they are the last four bytes, and the place behind
/// the fourth pointer belongs to the fifth.
pub open spec fn tag_places(struct_size: int) -> Seq<int> {
    if struct_size == SIX_POINTER_STRUCT_SIZE {
        seq![struct_size - 4, 32, struct_size - 8]
    } else {
        seq![32, struct_size - 4, struct_size - 8]
    }
}

/// The tags of the record at `base`: those at the first place that holds any.
pub open spec fn record_tags(data: Seq<u8>, base: int, struct_size: int) -> Tags {
    let places = tag_places(struct_size);
    if struct_size < 36 {
        default_tags()
    } else {
        match tags_at(data, base + places[0]) {
            Some(tags) => tags,
            None => match tags_at(data, base + places[1]) {
                Some(tags) => tags,
                None => match tags_at(data, base + places[2]) {
                    Some(tags) => tags,
                    None => default_tags(),
                },
            },
        }
    }
}

/// Reads the tags `place` bytes behind `base`.
fn read_tags(data: &[u8], base: usize, place: usize) -> (tags: Option<Tags>)
    ensures
        tags == tags_at(data@, base + place),
{
    if base > data.len() || place > data.len() - base || data.len() - base - place < 4 {
        return None;
    }
    let at: usize = base + place;
    let (encoding, loader, module_format, side): (u8, u8, u8, u8) = (
        data[at],
        data[at + 1],
        data[at + 2],
        data[at + 3],
    );
    if encoding <= 2 && loader <= LAST_LOADER_TAG && module_format <= 2 && side <= 1 {
        Some(
            (
                Encoding::from(encoding),
                Loader::from(loader),
                ModuleFormat::from(module_format),
                FileSide::from(side),
            ),
        )
    } else {
        None
    }
}

/// Reads the tags of the record at `base`.
pub fn extract_enum_fields(data: &[u8], base: usize, struct_size: usize) -> (tags: Tags)
    ensures
        tags == record_tags(data@, base as int, struct_size as int),
{
    let defaults = (Encoding::Binary, Loader::File, ModuleFormat::Unset, FileSide::Server);
    if struct_size < 36 {
        return defaults;
    }
    let places: [usize; 3] = if struct_size == SIX_POINTER_STRUCT_SIZE {
        [struct_size - 4, 32, struct_size - 8]
    } else {
        [32, struct_size - 4, struct_size - 8]
    };
    if let Some(tags) = read_tags(data, base, places[0]) {
        return tags;
    }
    if let Some(tags) = read_tags(data, base, places[1]) {
        return tags;
    }
    if let Some(tags) = read_tags(data, base, places[2]) {
        return tags;
    }
    defaults
}

/// The bytes that a string pointer points to, if they lie inside the payload and the data.
pub open spec fn pointed_bytes(
    data: Seq<u8>,
    payload_base: int,
    pointer: StringPointer,
    payload_size: int,
) -> Result<Seq<u8>, Failure> {
    let start = payload_base + pointer.offset;
    if pointer.offset + pointer.length > payload_size || start + pointer.length > data.len() {
        Err(
            Failure::StringOutOfBounds {
                offset: pointer.offset as int,
                length: pointer.length as int,
                payload_size,
            },
        )
    } else {
        Ok(data.subrange(start, start + pointer.length))
    }
}

/// The bytes that a string pointer points to.
pub fn read_string_pointer<'a>(
    data: &'a [u8],
    payload_base: usize,
    sp: &StringPointer,
    payload_size: usize,
) -> (result: Result<&'a [u8], ExtractError>)
    ensures
        match result {
            Ok(bytes) => pointed_bytes(
                data@,
                payload_base as int,
                *sp,
                payload_size as int,
            ) == Ok::<Seq<u8>, Failure>(bytes@),
            Err(e) => pointed_bytes(data@, payload_base as int, *sp, payload_size as int) == Err::<
                Seq<u8>,
                Failure,
            >(e@),
        },
{
    let offset: usize = sp.offset as usize;
    let length: usize = sp.length as usize;
    if offset > payload_size || length > payload_size - offset || payload_base > data.len()
        || offset > data.len() - payload_base || length > data.len() - payload_base - offset {
        return Err(
            ExtractError::StringOutOfBounds {
                offset: sp.offset,
                length: sp.length,
                payload_size,
            },
        );
    }
    let start: usize = payload_base + offset;
    Ok(vstd::slice::slice_subrange(data, start, start + length))
}

/// The bytes that a pointer of a record points to; none for an empty string.
pub open spec fn nonempty_bytes(
    data: Seq<u8>,
    payload_base: int,
    pointer: StringPointer,
    payload_size: int,
) -> Result<Option<Seq<u8>>, Failure> {
    if pointer.length == 0 {
        Ok(None)
    } else {
        match pointed_bytes(data, payload_base, pointer, payload_size) {
            Ok(bytes) => Ok(Some(bytes)),
            Err(failure) => Err(failure),
        }
    }
}

/// Copies the bytes that a pointer of a record points to.
fn copy_nonempty(
    data: &[u8],
    payload_base: usize,
    pointer: &StringPointer,
    payload_size: usize,
) -> (result: Result<Option<Vec<u8>>, ExtractError>)
    ensures
        match result {
            Ok(copied) => nonempty_bytes(
                data@,
                payload_base as int,
                *pointer,
                payload_size as int,
            ) == Ok::<Option<Seq<u8>>, Failure>(crate::format::optional_bytes(copied)),
            Err(e) => nonempty_bytes(
                data@,
                payload_base as int,
                *pointer,
                payload_size as int,
            ) == Err::<Option<Seq<u8>>, Failure>(e@),
        },
{
    if pointer.length == 0 {
        return Ok(None);
    }
    let bytes = read_string_pointer(data, payload_base, pointer, payload_size)?;
    Ok(Some(vstd::slice::slice_to_vec(bytes)))
}

/// What a later field of a record holds: nothing if the record does not have the field, the
/// string is empty, or it lies outside the payload.
pub open spec fn extra_bytes(
    data: Seq<u8>,
    payload_base: int,
    at: int,
    payload_size: int,
    present: bool,
) -> Option<Seq<u8>> {
    if present && at + 8 <= data.len() {
        match nonempty_bytes(
            data,
            payload_base,
            crate::format::string_pointer_at(data, at),
            payload_size,
        ) {
            Ok(bytes) => bytes,
            Err(_) => None,
        }
    } else {
        None
    }
}

/// Reads a later field of a record, `distance` bytes behind `base`.
fn copy_extra(
    data: &[u8],
    payload_base: usize,
    base: usize,
    distance: usize,
    payload_size: usize,
    present: bool,
) -> (copied: Option<Vec<u8>>)
    ensures
        crate::format::optional_bytes(copied) == extra_bytes(
            data@,
            payload_base as int,
            base + distance,
            payload_size as int,
            present,
        ),
{
    if !present || base > data.len() || distance > data.len() - base || data.len() - base - distance
        < 8 {
        return None;
    }
    match copy_nonempty(data, payload_base, &StringPointer::read_at(data, base + distance), payload_size) {
        Ok(copied) => copied,
        Err(_) => None,
    }
}

/// The bytes as text, where there are any and they are UTF-8.
pub open spec fn extra_text(bytes: Option<Seq<u8>>) -> Option<Seq<char>> {
    match bytes {
        Some(bytes) => text::utf8_text(bytes),
        None => None,
    }
}

/// The module that the record with this index describes. A record starts with the pointers to
/// the name, the contents and the sourcemap; the pointer to the bytecode is the fourth, and
/// those to the module info and the bytecode's origin follow it in the packed layout with six.
pub open spec fn module_at(
    data: Seq<u8>,
    payload_base: int,
    offsets: Offsets,
    struct_size: int,
    index: int,
) -> Result<ModuleView, Failure> {
    let base = payload_base + offsets.modules_offset + index * struct_size;
    let payload_size = offsets.byte_count as int;
    let six_pointers = struct_size == SIX_POINTER_STRUCT_SIZE;
    let tags = record_tags(data, base, struct_size);
    if base > usize::MAX {
        Err(Failure::OffsetOverflow)
    } else if base + 16 > data.len() {
        Err(Failure::CorruptModuleGraph { index })
    } else {
        match pointed_bytes(
            data,
            payload_base,
            crate::format::string_pointer_at(data, base),
            payload_size,
        ) {
            Err(failure) => Err(failure),
            Ok(name_bytes) => match text::utf8_text(name_bytes) {
                None => Err(Failure::InvalidModuleName { index }),
                Some(name) => match nonempty_bytes(
                    data,
                    payload_base,
                    crate::format::string_pointer_at(data, base + 8),
                    payload_size,
                ) {
                    Err(failure) => Err(failure),
                    Ok(contents) => match (if struct_size >= 24 && base + 24 <= data.len() {
                        nonempty_bytes(
                            data,
                            payload_base,
                            crate::format::string_pointer_at(data, base + 16),
                            payload_size,
                        )
                    } else {
                        Ok(None)
                    }) {
                        Err(failure) => Err(failure),
                        Ok(sourcemap) => Ok(
                            ModuleView {
                                index,
                                name,
                                contents: match contents {
                                    Some(bytes) => bytes,
                                    None => Seq::empty(),
                                },
                                sourcemap,
                                bytecode: extra_bytes(
                                    data,
                                    payload_base,
                                    base + 24,
                                    payload_size,
                                    struct_size >= 32,
                                ),
                                module_info: extra_bytes(
                                    data,
                                    payload_base,
                                    base + 32,
                                    payload_size,
                                    six_pointers,
                                ),
                                bytecode_origin_path: extra_text(
                                    extra_bytes(
                                        data,
                                        payload_base,
                                        base + 40,
                                        payload_size,
                                        six_pointers,
                                    ),
                                ),
                                encoding: tags.0,
                                loader: tags.1,
                                module_format: tags.2,
                                side: tags.3,
                                is_entry_point: index == offsets.entry_point_id,
                            },
                        ),
                    },
                },
            },
        }
    }
}

/// Reads the module that the record at `base` describes.
fn read_module(
    data: &[u8],
    payload_base: usize,
    offsets: &Offsets,
    payload_size: usize,
    struct_size: usize,
    base: usize,
    index: usize,
) -> (result: Result<Module, ExtractError>)
    requires
        base == payload_base + offsets.modules_offset + index * struct_size,
        payload_size == offsets.byte_count,
    ensures
        match result {
            Ok(module) => module_at(
                data@,
                payload_base as int,
                *offsets,
                struct_size as int,
                index as int,
            ) == Ok::<ModuleView, Failure>(module@),
            Err(e) => module_at(
                data@,
                payload_base as int,
                *offsets,
                struct_size as int,
                index as int,
            ) == Err::<ModuleView, Failure>(e@),
        },
{
    if base > data.len() || data.len() - base < 16 {
        return Err(ExtractError::CorruptModuleGraph { index });
    }
    let name_bytes = read_string_pointer(
        data,
        payload_base,
        &StringPointer::read_at(data, base),
        payload_size,
    )?;
    let name = match text::utf8_string(name_bytes) {
        Some(name) => name,
        None => {
            return Err(ExtractError::InvalidModuleName { index });
        },
    };
    let contents = match copy_nonempty(
        data,
        payload_base,
        &StringPointer::read_at(data, base + 8),
        payload_size,
    )? {
        Some(contents) => contents,
        None => Vec::new(),
    };
    let sourcemap = if struct_size >= 24 && data.len() - base >= 24 {
        copy_nonempty(data, payload_base, &StringPointer::read_at(data, base + 16), payload_size)?
    } else {
        None
    };
    let six_pointers: bool = struct_size == SIX_POINTER_STRUCT_SIZE;
    let bytecode = copy_extra(data, payload_base, base, 24, payload_size, struct_size >= 32);
    let module_info = copy_extra(data, payload_base, base, 32, payload_size, six_pointers);
    let bytecode_origin_path = match copy_extra(
        data,
        payload_base,
        base,
        40,
        payload_size,
        six_pointers,
    ) {
        Some(bytes) => text::utf8_string(&bytes),
        None => None,
    };
    let (encoding, loader, module_format, side) = extract_enum_fields(data, base, struct_size);
    Ok(
        Module {
            index,
            name,
            contents,
            sourcemap,
            bytecode,
            module_info,
            bytecode_origin_path,
            encoding,
            loader,
            module_format,
            side,
            is_entry_point: index == offsets.entry_point_id as usize,
        },
    )
}

/// The modules over mathematical values.
pub open spec fn module_views(modules: Seq<Module>) -> Seq<ModuleView> {
    modules.map_values(|module: Module| module@)
}

/// All modules of the module table, or the first failure among them.
pub open spec fn modules_of(
    data: Seq<u8>,
    payload_base: int,
    offsets: Offsets,
    struct_size: int,
) -> Result<Seq<ModuleView>, Failure> {
    if payload_base + offsets.modules_offset > usize::MAX || offsets.byte_count > usize::MAX {
        Err(Failure::OffsetOverflow)
    } else {
        error::collect(
            |i: int| module_at(data, payload_base, offsets, struct_size, i),
            offsets.modules_length as int / struct_size,
        )
    }
}

/// Reads the modules of the module table.
pub fn parse_modules(
    data: &[u8],
    payload_base: usize,
    offsets: &Offsets,
    struct_size: usize,
) -> (result: Result<Vec<Module>, ExtractError>)
    requires
        struct_size > 0,
    ensures
        match result {
            Ok(modules) => modules_of(
                data@,
                payload_base as int,
                *offsets,
                struct_size as int,
            ) == Ok::<Seq<ModuleView>, Failure>(module_views(modules@)),
            Err(e) => modules_of(
                data@,
                payload_base as int,
                *offsets,
                struct_size as int,
            ) == Err::<Seq<ModuleView>, Failure>(e@),
        },
{
    let table: usize = checked_offset(payload_base, offsets.modules_offset as usize)?;
    let count: usize = offsets.modules_length as usize / struct_size;
    let payload_size: usize = match usize::try_from(offsets.byte_count) {
        Ok(payload_size) => payload_size,
        Err(_) => {
            return Err(ExtractError::OffsetOverflow);
        },
    };
    let ghost item = |i: int|
        module_at(data@, payload_base as int, *offsets, struct_size as int, i);
    let mut modules: Vec<Module> = Vec::new();
    assert(module_views(modules@) =~= Seq::empty());
    let mut i: usize = 0;
    while i < count
        invariant
            i <= count,
            struct_size > 0,
            count == offsets.modules_length as int / struct_size as int,
            table == payload_base + offsets.modules_offset,
            payload_size == offsets.byte_count,
            item == (|i: int|
                module_at(data@, payload_base as int, *offsets, struct_size as int, i)),
            error::collect(item, i as int) == Ok::<Seq<ModuleView>, Failure>(
                module_views(modules@),
            ),
        decreases count - i,
    {
        proof {
            assert(i * struct_size <= offsets.modules_length) by (nonlinear_arith)
                requires
                    i < offsets.modules_length as int / struct_size as int,
                    struct_size > 0,
            ;
            if error::collect(item, i + 1) is Err {
                error::lemma_collect_failure_stays(item, i + 1, count as int);
            }
        }
        let base: usize = checked_offset(table, i * struct_size)?;
        let module = read_module(
            data,
            payload_base,
            offsets,
            payload_size,
            struct_size,
            base,
            i,
        )?;
        let ghost before = modules@;
        modules.push(module);
        assert(module_views(modules@) =~= module_views(before).push(module@));
        i = i + 1;
    }
    Ok(modules)
}

/// The build-time command line arguments, if they lie inside the data and are UTF-8.
pub open spec fn argv_of(data: Seq<u8>, payload_base: int, offsets: Offsets) -> Option<Seq<char>> {
    let start = payload_base + offsets.argv_offset;
    if start + offsets.argv_length > data.len() {
        None
    } else {
        text::utf8_text(data.subrange(start, start + offsets.argv_length))
    }
}

/// Reads the build-time command line arguments.
pub fn extract_argv(data: &[u8], payload_base: usize, offsets: &Offsets) -> (argv: Option<String>)
    ensures
        crate::format::optional_text(argv) == argv_of(data@, payload_base as int, *offsets),
{
    let offset: usize = offsets.argv_offset as usize;
    let length: usize = offsets.argv_length as usize;
    if payload_base > data.len() || offset > data.len() - payload_base || length > data.len()
        - payload_base - offset {
        return None;
    }
    let start: usize = payload_base + offset;
    text::utf8_string(vstd::slice::slice_subrange(data, start, start + length))
}

/// The smallest file that can hold a payload.
pub const MIN_FILE_SIZE: usize = 60;

/// A parsed Bun executable.
pub struct BunBinary {
    pub embed_method: EmbedMethod,
    pub offsets: Offsets,
    pub payload_base: usize,
    pub module_struct_size: usize,
    pub modules: Vec<Module>,
    pub version: BunVersion,
    pub argv: Option<String>,
}

/// A [`BunBinary`] over mathematical values.
#[verifier::ext_equal]
pub struct BinaryView {
    pub embed_method: EmbedMethod,
    pub offsets: Offsets,
    pub payload_base: int,
    pub module_struct_size: int,
    pub modules: Seq<ModuleView>,
    pub version: BunVersion,
    pub argv: Option<Seq<char>>,
}

impl View for BunBinary {
    type V = BinaryView;

    open spec fn view(&self) -> BinaryView {
        BinaryView {
            embed_method: self.embed_method,
            offsets: self.offsets,
            payload_base: self.payload_base as int,
            module_struct_size: self.module_struct_size as int,
            modules: module_views(self.modules@),
            version: self.version,
            argv: crate::format::optional_text(self.argv),
        }
    }
}

/// The offsets record of an appended payload, and where the payload starts. The payload, the
/// record, the trailer and the size of the file follow one another up to the end of the file.
pub open spec fn appended_payload(data: Seq<u8>) -> Result<(Offsets, int), Failure> {
    let record = data.len() - 24 - OFFSETS_SIZE;
    let offsets = crate::format::offsets_at(data, record);
    if 32 <= offsets.byte_count <= record && offsets.byte_count < bytes::le_at(
        data,
        data.len() - 8,
        8,
    ) {
        Ok((offsets, record - offsets.byte_count))
    } else {
        Err(Failure::InvalidOffsets { byte_count: offsets.byte_count as int })
    }
}

/// The offsets record of the payload in a section, and where the payload starts. The section
/// starts with the length of what follows: the payload, the record and the trailer.
pub open spec fn section_payload(data: Seq<u8>, section_offset: int) -> Result<
    (Offsets, int),
    Failure,
> {
    let start = section_offset + 8;
    let length = bytes::le_at(data, section_offset, 8);
    if start > usize::MAX {
        Err(Failure::OffsetOverflow)
    } else if start > data.len() {
        Err(Failure::InvalidOffsets { byte_count: 0 })
    } else if start + length > usize::MAX {
        Err(Failure::OffsetOverflow)
    } else if start + length > data.len() {
        Err(Failure::InvalidOffsets { byte_count: length as int })
    } else if length < 16 + OFFSETS_SIZE {
        Err(Failure::InvalidOffsets { byte_count: 0 })
    } else {
        Ok((crate::format::offsets_at(data, start + length - 16 - OFFSETS_SIZE), start))
    }
}

/// The offsets record of the payload, and where the payload starts.
pub open spec fn payload_of(data: Seq<u8>, method: EmbedMethod) -> Result<(Offsets, int), Failure> {
    match method {
        EmbedMethod::Appended => appended_payload(data),
        EmbedMethod::ElfSection { section_offset } => section_payload(data, section_offset as int),
        EmbedMethod::PeSection { section_offset } => section_payload(data, section_offset as int),
        EmbedMethod::MachoSection { section_offset } => section_payload(
            data,
            section_offset as int,
        ),
    }
}

/// What an executable holds.
pub open spec fn binary_of(data: Seq<u8>) -> Result<BinaryView, Failure> {
    if data.len() < MIN_FILE_SIZE {
        Err(Failure::FileTooSmall { size: data.len() as int })
    } else {
        match containers::embed_method_of(data) {
            Err(failure) => Err(failure),
            Ok(method) => match payload_of(data, method) {
                Err(failure) => Err(failure),
                Ok((offsets, payload_base)) => match module_struct_size(
                    data,
                    payload_base,
                    offsets.modules_offset as int,
                    offsets.modules_length as int,
                ) {
                    Err(failure) => Err(failure),
                    Ok(size) => if offsets.entry_point_id >= offsets.modules_length as int / size {
                        Err(Failure::InvalidOffsets { byte_count: offsets.byte_count as int })
                    } else {
                        match modules_of(data, payload_base, offsets, size) {
                            Err(failure) => Err(failure),
                            Ok(modules) => Ok(
                                BinaryView {
                                    embed_method: method,
                                    offsets,
                                    payload_base,
                                    module_struct_size: size,
                                    modules,
                                    version: crate::format::version_of(method, size, offsets.flags),
                                    argv: argv_of(data, payload_base, offsets),
                                },
                            ),
                        }
                    },
                },
            },
        }
    }
}

/// Finds the payload that was appended to the file.
fn locate_appended(data: &[u8]) -> (result: Result<(Offsets, usize), ExtractError>)
    requires
        data.len() >= MIN_FILE_SIZE,
    ensures
        match result {
            Ok((offsets, base)) => appended_payload(data@) == Ok::<(Offsets, int), Failure>(
                (offsets, base as int),
            ),
            Err(e) => appended_payload(data@) == Err::<(Offsets, int), Failure>(e@),
        },
{
    let record: usize = data.len() - 24 - OFFSETS_SIZE;
    let offsets = Offsets::read_at(data, record);
    let file_size: u64 = bytes::u64_at(data, data.len() - 8);
    if offsets.byte_count < 32 || offsets.byte_count > record as u64 || offsets.byte_count
        >= file_size {
        return Err(ExtractError::InvalidOffsets { byte_count: offsets.byte_count });
    }
    Ok((offsets, record - offsets.byte_count as usize))
}

/// Finds the payload in the section at `section_offset`.
fn locate_in_section(data: &[u8], section_offset: usize) -> (result: Result<
    (Offsets, usize),
    ExtractError,
>)
    ensures
        match result {
            Ok((offsets, base)) => section_payload(data@, section_offset as int) == Ok::<
                (Offsets, int),
                Failure,
            >((offsets, base as int)),
            Err(e) => section_payload(data@, section_offset as int) == Err::<
                (Offsets, int),
                Failure,
            >(e@),
        },
{
    let start: usize = checked_offset(section_offset, 8)?;
    if start > data.len() {
        return Err(ExtractError::InvalidOffsets { byte_count: 0 });
    }
    let length_field: u64 = bytes::u64_at(data, section_offset);
    let length: usize = match usize::try_from(length_field) {
        Ok(length) => length,
        Err(_) => {
            return Err(ExtractError::OffsetOverflow);
        },
    };
    let end: usize = checked_offset(start, length)?;
    if end > data.len() {
        return Err(ExtractError::InvalidOffsets { byte_count: length_field });
    }
    if length < 16 + OFFSETS_SIZE {
        return Err(ExtractError::InvalidOffsets { byte_count: 0 });
    }
    Ok((Offsets::read_at(data, end - 16 - OFFSETS_SIZE), start))
}

impl BunBinary {
    /// Parses an executable.
    pub fn parse(data: &[u8]) -> (result: Result<Self, ExtractError>)
        ensures
            match result {
                Ok(binary) => binary_of(data@) == Ok::<BinaryView, Failure>(binary@),
                Err(e) => binary_of(data@) == Err::<BinaryView, Failure>(e@),
            },
    {
        if data.len() < MIN_FILE_SIZE {
            return Err(ExtractError::FileTooSmall { size: data.len() });
        }
        let embed_method = detect_embed_method(data)?;
        let (offsets, payload_base): (Offsets, usize) = match embed_method {
            EmbedMethod::Appended => locate_appended(data)?,
            EmbedMethod::ElfSection { section_offset }
            | EmbedMethod::PeSection { section_offset }
            | EmbedMethod::MachoSection { section_offset } => locate_in_section(
                data,
                section_offset,
            )?,
        };
        let module_struct_size: usize = detect_module_struct_size(
            data,
            payload_base,
            offsets.modules_offset,
            offsets.modules_length,
        )?;
        proof {
            lemma_first_size(
                data@,
                payload_base as int,
                payload_base + offsets.modules_offset,
                offsets.modules_length as int,
                0,
            );
        }
        let count: usize = offsets.modules_length as usize / module_struct_size;
        if offsets.entry_point_id as usize >= count {
            return Err(ExtractError::InvalidOffsets { byte_count: offsets.byte_count });
        }
        let argv = extract_argv(data, payload_base, &offsets);
        let modules = parse_modules(data, payload_base, &offsets, module_struct_size)?;
        let version = BunVersion::detect(&embed_method, module_struct_size, offsets.flags);
        Ok(
            BunBinary {
                embed_method,
                offsets,
                payload_base,
                module_struct_size,
                modules,
                version,
                argv,
            },
        )
    }
}

/// A size that was found is a candidate and fits the module table.
pub proof fn lemma_first_size(
    data: Seq<u8>,
    payload_base: int,
    table: int,
    length: int,
    candidate: int,
)
    requires
        0 <= candidate,
    ensures
        first_size(data, payload_base, table, length, candidate) matches Ok(size) ==> {
            &&& 36 <= size <= 128
            &&& exists|k: int|
                0 <= k < CANDIDATE_STRUCT_SIZES@.len() && #[trigger] CANDIDATE_STRUCT_SIZES@[k]
                    == size
            &&& size_fits(data, payload_base, table, length, size)
        },
    decreases CANDIDATE_STRUCT_SIZES@.len() - candidate,
{
    if candidate < CANDIDATE_STRUCT_SIZES@.len() {
        lemma_candidates(candidate);
        lemma_first_size(data, payload_base, table, length, candidate + 1);
    }
}

/// Whether `bytes` lie somewhere inside the payload, and so inside the file.
pub open spec fn inside_payload(data: Seq<u8>, payload_base: int, size: int, bytes: Seq<u8>) -> bool {
    exists|start: int|
        payload_base <= start && start + bytes.len() <= payload_base + size && start + bytes.len()
            <= data.len() && #[trigger] data.subrange(start, start + bytes.len()) == bytes
}

proof fn lemma_pointed_bytes(
    data: Seq<u8>,
    payload_base: int,
    pointer: StringPointer,
    payload_size: int,
)
    requires
        0 <= payload_base,
    ensures
        pointed_bytes(data, payload_base, pointer, payload_size) matches Ok(bytes)
            ==> inside_payload(data, payload_base, payload_size, bytes),
{
    if let Ok(bytes) = pointed_bytes(data, payload_base, pointer, payload_size) {
        let start = payload_base + pointer.offset;
        assert(bytes.len() == pointer.length);
        assert(data.subrange(start, start + bytes.len()) == bytes);
    }
}

/// The payload starts inside the file.
pub proof fn lemma_payload_base(data: Seq<u8>, method: EmbedMethod)
    ensures
        payload_of(data, method) matches Ok((_, payload_base)) ==> 0 <= payload_base <= data.len(),
{
}

/// Every module of a parsed executable keeps its place: it carries its own index, its name is
/// under Bun's virtual root, and exactly the module that the offsets record names is the entry
/// point.
pub proof fn modules_in_order(data: Seq<u8>)
    requires
        binary_of(data) is Ok,
    ensures
        ({
            let binary = binary_of(data)->Ok_0;
            &&& 1 <= binary.modules.len() <= 10000
            &&& binary.modules.len() * binary.module_struct_size == binary.offsets.modules_length
            &&& binary.offsets.entry_point_id < binary.modules.len()
            &&& forall|i: int|
                #![trigger binary.modules[i]]
                0 <= i < binary.modules.len() ==> {
                    &&& binary.modules[i].index == i
                    &&& "/$bunfs/"@.is_prefix_of(binary.modules[i].name)
                    &&& binary.modules[i].is_entry_point <==> i == binary.offsets.entry_point_id
                }
        }),
{
    let binary = binary_of(data)->Ok_0;
    let method = binary.embed_method;
    let offsets = binary.offsets;
    let base = binary.payload_base;
    let size = binary.module_struct_size;
    let table = base + offsets.modules_offset;
    let length = offsets.modules_length as int;
    lemma_first_size(data, base, table, length, 0);
    let item = |i: int| module_at(data, base, offsets, size, i);
    let count = length / size;
    vstd::arithmetic::div_mod::lemma_fundamental_div_mod(length, size);
    assert(count >= 1) by (nonlinear_arith)
        requires
            count == length / size,
            length % size == 0,
            length > 0,
            size > 0,
    ;
    assert(count * size == length) by (nonlinear_arith)
        requires
            length == size * count + length % size,
            length % size == 0,
    ;
    error::lemma_collect_items(item, count);
    assert forall|i: int| #![trigger binary.modules[i]] 0 <= i < binary.modules.len() implies {
        &&& binary.modules[i].index == i
        &&& MODULE_NAME_PREFIX@.is_prefix_of(binary.modules[i].name)
        &&& binary.modules[i].is_entry_point <==> i == offsets.entry_point_id
    } by {
        assert(item(i) == Ok::<ModuleView, Failure>(binary.modules[i]));
        assert(names_module(data, base, table + i * size));
    }
}

/// The contents and the sourcemap of every module are bytes of the payload, unchanged.
pub proof fn modules_from_payload(data: Seq<u8>)
    requires
        binary_of(data) is Ok,
    ensures
        ({
            let binary = binary_of(data)->Ok_0;
            let base = binary.payload_base;
            let size = binary.offsets.byte_count as int;
            &&& 0 <= base <= data.len()
            &&& forall|i: int|
                #![trigger binary.modules[i]]
                0 <= i < binary.modules.len() ==> {
                    let module = binary.modules[i];
                    &&& module.contents.len() > 0 ==> inside_payload(
                        data,
                        base,
                        size,
                        module.contents,
                    )
                    &&& module.sourcemap matches Some(bytes) ==> bytes.len() > 0 && inside_payload(
                        data,
                        base,
                        size,
                        bytes,
                    )
                    &&& module.bytecode matches Some(bytes) ==> bytes.len() > 0 && inside_payload(
                        data,
                        base,
                        size,
                        bytes,
                    )
                    &&& module.module_info matches Some(bytes) ==> bytes.len() > 0
                        && inside_payload(data, base, size, bytes)
                }
        }),
{
    let binary = binary_of(data)->Ok_0;
    let offsets = binary.offsets;
    let base = binary.payload_base;
    let payload = offsets.byte_count as int;
    let size = binary.module_struct_size;
    let length = offsets.modules_length as int;
    lemma_payload_base(data, binary.embed_method);
    lemma_first_size(data, base, base + offsets.modules_offset, length, 0);
    let item = |i: int| module_at(data, base, offsets, size, i);
    vstd::arithmetic::div_mod::lemma_div_pos_is_pos(length, size);
    error::lemma_collect_items(item, length / size);
    assert forall|i: int| #![trigger binary.modules[i]] 0 <= i < binary.modules.len() implies {
        let module = binary.modules[i];
        &&& module.contents.len() > 0 ==> inside_payload(data, base, payload, module.contents)
        &&& module.sourcemap matches Some(bytes) ==> bytes.len() > 0 && inside_payload(
            data,
            base,
            payload,
            bytes,
        )
        &&& module.bytecode matches Some(bytes) ==> bytes.len() > 0 && inside_payload(
            data,
            base,
            payload,
            bytes,
        )
        &&& module.module_info matches Some(bytes) ==> bytes.len() > 0 && inside_payload(
            data,
            base,
            payload,
            bytes,
        )
    } by {
        assert(item(i) == Ok::<ModuleView, Failure>(binary.modules[i]));
        let at = base + offsets.modules_offset + i * size;
        lemma_pointed_bytes(data, base, crate::format::string_pointer_at(data, at + 8), payload);
        lemma_pointed_bytes(data, base, crate::format::string_pointer_at(data, at + 16), payload);
        lemma_pointed_bytes(data, base, crate::format::string_pointer_at(data, at + 24), payload);
        lemma_pointed_bytes(data, base, crate::format::string_pointer_at(data, at + 32), payload);
    }
}

} // verus!
