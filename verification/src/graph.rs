//! How Bun lays out the modules of an executable, and that parsing gives them back.

use vstd::prelude::*;

use crate::bytes;
use crate::containers;
use crate::error;
use crate::error::Failure;
use crate::extractor;
use crate::extractor::BinaryView;
use crate::format::{
    EmbedMethod, Encoding, FileSide, ModuleFormat, ModuleView, Offsets, StringPointer,
    CANDIDATE_STRUCT_SIZES, TRAILER,
};
use crate::text;

verus! {

/// A module as an executable holds it. Empty byte strings are absent.
pub struct GraphModule {
    pub name: Seq<char>,
    pub contents: Seq<u8>,
    pub sourcemap: Seq<u8>,
    pub bytecode: Seq<u8>,
    pub module_info: Seq<u8>,
    pub bytecode_origin_path: Seq<char>,
    pub encoding: u8,
    pub loader: u8,
    pub module_format: u8,
    pub side: u8,
}

/// Whether the string pointer at `at` stands for `bytes`: it has their length, and it points to
/// them inside the payload unless they are empty.
pub open spec fn points_to(
    data: Seq<u8>,
    payload_base: int,
    payload_size: int,
    at: int,
    bytes: Seq<u8>,
) -> bool {
    let offset = bytes::le_at(data, at, 4) as int;
    let start = payload_base + offset;
    &&& at + 8 <= data.len()
    &&& bytes::le_at(data, at + 4, 4) == bytes.len()
    &&& bytes.len() > 0 ==> {
        &&& offset + bytes.len() <= payload_size
        &&& start + bytes.len() <= data.len()
        &&& data.subrange(start, start + bytes.len()) == bytes
    }
}

/// Whether the record of this size at `at` lists `module`: four string pointers, or six in the
/// packed layout for them, and the four tags right behind.
pub open spec fn lists(
    data: Seq<u8>,
    payload_base: int,
    payload_size: int,
    at: int,
    size: int,
    module: GraphModule,
) -> bool {
    let tags = if size == 52 {
        at + 48
    } else {
        at + 32
    };
    &&& at + size <= data.len()
    &&& points_to(data, payload_base, payload_size, at, vstd::utf8::encode_utf8(module.name))
    &&& points_to(data, payload_base, payload_size, at + 8, module.contents)
    &&& points_to(data, payload_base, payload_size, at + 16, module.sourcemap)
    &&& points_to(data, payload_base, payload_size, at + 24, module.bytecode)
    &&& size == 52 ==> {
        &&& points_to(data, payload_base, payload_size, at + 32, module.module_info)
        &&& points_to(
            data,
            payload_base,
            payload_size,
            at + 40,
            vstd::utf8::encode_utf8(module.bytecode_origin_path),
        )
    }
    &&& data[tags] == module.encoding
    &&& data[tags + 1] == module.loader
    &&& data[tags + 2] == module.module_format
    &&& data[tags + 3] == module.side
}

/// Whether an executable can hold `module`: its name is under Bun's virtual root, and each tag
/// has a meaning.
pub open spec fn is_valid(module: GraphModule) -> bool {
    &&& "/$bunfs/"@.is_prefix_of(module.name)
    &&& module.encoding <= 2
    &&& module.loader <= 20
    &&& module.module_format <= 2
    &&& module.side <= 1
}

/// The bytes, unless they are absent.
pub open spec fn unless_empty(bytes: Seq<u8>) -> Option<Seq<u8>> {
    if bytes.len() == 0 {
        None
    } else {
        Some(bytes)
    }
}

/// The module that parsing gives for `module` at this place in a table with records of this
/// size. Records with four pointers have no room for the module info and the origin.
pub open spec fn parsed_module(
    module: GraphModule,
    size: int,
    index: int,
    entry_point: int,
) -> ModuleView {
    let six_pointers = size == 52;
    ModuleView {
        index,
        name: module.name,
        contents: module.contents,
        sourcemap: unless_empty(module.sourcemap),
        bytecode: unless_empty(module.bytecode),
        module_info: if six_pointers {
            unless_empty(module.module_info)
        } else {
            None
        },
        bytecode_origin_path: if six_pointers && module.bytecode_origin_path.len() > 0 {
            Some(module.bytecode_origin_path)
        } else {
            None
        },
        encoding: seq![Encoding::Binary, Encoding::Latin1, Encoding::Utf8][module.encoding as int],
        loader: crate::format::loaders()[module.loader as int],
        module_format: seq![
            ModuleFormat::Unset,
            ModuleFormat::Esm,
            ModuleFormat::Cjs,
        ][module.module_format as int],
        side: seq![FileSide::Server, FileSide::Client][module.side as int],
        is_entry_point: index == entry_point,
    }
}

/// Text has bytes exactly if it has characters.
proof fn lemma_utf8(text: Seq<char>)
    ensures
        text::utf8_text(vstd::utf8::encode_utf8(text)) == Some(text),
        (vstd::utf8::encode_utf8(text).len() == 0) == (text.len() == 0),
{
    vstd::utf8::encode_utf8_valid_utf8(text);
    vstd::utf8::encode_utf8_decode_utf8(text);
    if text.len() > 0 {
        vstd::utf8::encode_utf8_first_scalar(text);
    }
}

/// What a record lists is read from it.
proof fn lemma_listed_module(
    data: Seq<u8>,
    payload_base: int,
    offsets: Offsets,
    size: int,
    index: int,
    module: GraphModule,
)
    requires
        data.len() <= usize::MAX,
        0 <= payload_base,
        size >= 36,
        is_valid(module),
        lists(
            data,
            payload_base,
            offsets.byte_count as int,
            payload_base + offsets.modules_offset + index * size,
            size,
            module,
        ),
    ensures
        extractor::names_module(
            data,
            payload_base,
            payload_base + offsets.modules_offset + index * size,
        ),
        extractor::module_at(data, payload_base, offsets, size, index) == Ok::<
            ModuleView,
            Failure,
        >(parsed_module(module, size, index, offsets.entry_point_id as int)),
{
    lemma_utf8(module.name);
    lemma_utf8(module.bytecode_origin_path);
    reveal_strlit("/$bunfs/");
    assert(module.name.len() >= 8);
    let at = payload_base + offsets.modules_offset + index * size;
    bytes::lemma_le_at_bound(data, at);
    bytes::lemma_le_at_bound(data, at + 4);
    bytes::lemma_le_at_bound(data, at + 8);
    bytes::lemma_le_at_bound(data, at + 12);
    bytes::lemma_le_at_bound(data, at + 16);
    bytes::lemma_le_at_bound(data, at + 20);
    bytes::lemma_le_at_bound(data, at + 24);
    bytes::lemma_le_at_bound(data, at + 28);
    bytes::lemma_le_at_bound(data, at + 32);
    bytes::lemma_le_at_bound(data, at + 36);
    bytes::lemma_le_at_bound(data, at + 40);
    bytes::lemma_le_at_bound(data, at + 44);
    crate::format::loader_tags(module.loader);
    crate::format::other_tags(module.encoding);
    crate::format::other_tags(module.module_format);
    crate::format::other_tags(module.side);
    assert(module.contents.len() == 0 ==> module.contents =~= Seq::empty());
}

/// An executable with the payload behind the program.
pub open spec fn appended_file(
    program: Seq<u8>,
    payload: Seq<u8>,
    offsets: Offsets,
    file_size: u64,
) -> Seq<u8> {
    program + payload + crate::format::offsets_bytes(offsets) + TRAILER@ + bytes::le_bytes(
        file_size as nat,
        8,
    )
}

/// A payload behind a program is found where it starts, whatever the program is. A payload of
/// less than 32 bytes is left out: it cannot hold a module record.
pub proof fn appended_payload_is_found(
    program: Seq<u8>,
    payload: Seq<u8>,
    offsets: Offsets,
    file_size: u64,
)
    requires
        32 <= payload.len() < file_size,
        offsets.byte_count == payload.len(),
    ensures
        ({
            let data = appended_file(program, payload, offsets, file_size);
            &&& containers::embed_method_of(data) == Ok::<EmbedMethod, Failure>(
                EmbedMethod::Appended,
            )
            &&& extractor::payload_of(data, EmbedMethod::Appended) == Ok::<
                (Offsets, int),
                Failure,
            >((offsets, program.len() as int))
        }),
{
    let data = appended_file(program, payload, offsets, file_size);
    let front = program + payload;
    let record = crate::format::offsets_bytes(offsets);
    let size = bytes::le_bytes(file_size as nat, 8);
    reveal_with_fuel(bytes::le_bound, 9);
    crate::format::offsets_round_trip(front, offsets, TRAILER@ + size);
    assert(front + record + (TRAILER@ + size) =~= data);
    bytes::le_round_trip(front + record + TRAILER@, file_size as nat, 8, Seq::empty());
    assert(front + record + TRAILER@ + size + Seq::<u8>::empty() =~= data);
    assert(data.subrange(data.len() - 24, data.len() - 8) =~= TRAILER@);
}

/// A section with the payload in it.
pub open spec fn section_contents(payload: Seq<u8>, offsets: Offsets) -> Seq<u8> {
    bytes::le_bytes(payload.len() + 48, 8) + payload + crate::format::offsets_bytes(offsets)
        + TRAILER@
}

/// A payload in a section is found behind the length that the section starts with, wherever in
/// the file the section lies.
pub proof fn section_payload_is_found(
    before: Seq<u8>,
    payload: Seq<u8>,
    offsets: Offsets,
    after: Seq<u8>,
)
    requires
        (before + section_contents(payload, offsets) + after).len() <= usize::MAX,
    ensures
        extractor::section_payload(
            before + section_contents(payload, offsets) + after,
            before.len() as int,
        ) == Ok::<(Offsets, int), Failure>((offsets, before.len() as int + 8)),
{
    let data = before + section_contents(payload, offsets) + after;
    let length = bytes::le_bytes(payload.len() + 48, 8);
    let record = crate::format::offsets_bytes(offsets);
    reveal_with_fuel(bytes::le_bound, 9);
    crate::format::offsets_round_trip(before + length + payload, offsets, TRAILER@ + after);
    assert(payload.len() + 48 <= usize::MAX);
    bytes::le_round_trip(
        before,
        payload.len() + 48,
        8,
        payload + record + TRAILER@ + after,
    );
    assert(before + length + payload + record + (TRAILER@ + after) =~= data);
    assert(before + length + (payload + record + TRAILER@ + after) =~= data);
}

/// The sizes of module records that are known, in the order in which they are tried.
pub open spec fn known_sizes() -> Seq<int> {
    seq![72, 52, 36, 68, 64, 60, 56, 80, 84, 88, 76, 48, 40, 44, 96, 104, 112, 120, 128]
}

/// Whether the string pointer at `at` points to the name of a module: a text under Bun's virtual
/// root, somewhere in the data.
pub open spec fn names_bun_module(data: Seq<u8>, payload_base: int, at: int) -> bool {
    let start = payload_base + bytes::le_at(data, at, 4);
    let length = bytes::le_at(data, at + 4, 4);
    &&& at + 8 <= data.len()
    &&& length > 0
    &&& start + length <= data.len()
    &&& exists|name: Seq<char>|
        "/$bunfs/"@.is_prefix_of(name) && data.subrange(start, start + length)
            == #[trigger] vstd::utf8::encode_utf8(name)
}

/// Whether the module table can be one of records of this size: they fill it, are at most ten
/// thousand, and every one of them names a module.
pub open spec fn looks_like(
    data: Seq<u8>,
    payload_base: int,
    table: int,
    length: int,
    size: int,
) -> bool {
    &&& length > 0
    &&& length % size == 0
    &&& length / size <= 10000
    &&& forall|i: int|
        0 <= i < length / size ==> names_bun_module(
            data,
            payload_base,
            #[trigger] (table + i * size),
        )
}

proof fn lemma_names_module(data: Seq<u8>, payload_base: int, at: int)
    ensures
        extractor::names_module(data, payload_base, at) == names_bun_module(
            data,
            payload_base,
            at,
        ),
{
    bytes::lemma_le_at_bound(data, at);
    bytes::lemma_le_at_bound(data, at + 4);
    let start = payload_base + bytes::le_at(data, at, 4);
    let own = data.subrange(start, start + bytes::le_at(data, at + 4, 4));
    if let Some(name) = text::utf8_text(own) {
        text::encoded_text_is_read(own, name);
    }
    assert forall|name: Seq<char>| own == #[trigger] vstd::utf8::encode_utf8(name) implies
        text::utf8_text(own) == Some(name) by {
        text::encoded_text_is_read(own, name);
    }
}

proof fn lemma_looks_like(data: Seq<u8>, payload_base: int, table: int, length: int, size: int)
    ensures
        extractor::size_fits(data, payload_base, table, length, size) == looks_like(
            data,
            payload_base,
            table,
            length,
            size,
        ),
{
    assert forall|i: int|
        extractor::names_module(data, payload_base, #[trigger] (table + i * size))
            == names_bun_module(data, payload_base, table + i * size) by {
        lemma_names_module(data, payload_base, table + i * size);
    }
    if extractor::size_fits(data, payload_base, table, length, size) {
        assert forall|i: int| 0 <= i < length / size implies names_bun_module(
            data,
            payload_base,
            #[trigger] (table + i * size),
        ) by {
            assert(extractor::names_module(data, payload_base, table + i * size));
        }
    }
    if looks_like(data, payload_base, table, length, size) {
        assert forall|i: int| 0 <= i < length / size implies extractor::names_module(
            data,
            payload_base,
            #[trigger] (table + i * size),
        ) by {
            assert(names_bun_module(data, payload_base, table + i * size));
        }
    }
}

proof fn lemma_known_sizes(k: int)
    requires
        0 <= k < 19,
    ensures
        known_sizes().len() == 19,
        CANDIDATE_STRUCT_SIZES@.len() == 19,
        CANDIDATE_STRUCT_SIZES@[k] as int == known_sizes()[k],
        36 <= known_sizes()[k] <= 128,
{
}

/// Whether the module table can also be one of records of a known size in front of this one.
pub open spec fn fits_earlier(
    data: Seq<u8>,
    payload_base: int,
    table: int,
    length: int,
    candidate: int,
) -> bool {
    exists|k: int|
        0 <= k < candidate && looks_like(
            data,
            payload_base,
            table,
            length,
            #[trigger] known_sizes()[k],
        )
}

/// The first known size that fits is found.
proof fn lemma_first_fit(
    data: Seq<u8>,
    payload_base: int,
    table: int,
    length: int,
    from: int,
    candidate: int,
)
    requires
        0 <= from <= candidate < 19,
        !fits_earlier(data, payload_base, table, length, candidate),
        looks_like(data, payload_base, table, length, known_sizes()[candidate]),
    ensures
        extractor::first_size(data, payload_base, table, length, from) == Ok::<int, Failure>(
            known_sizes()[candidate],
        ),
    decreases candidate - from,
{
    lemma_known_sizes(from);
    lemma_looks_like(data, payload_base, table, length, known_sizes()[from]);
    if from < candidate {
        lemma_first_fit(data, payload_base, table, length, from + 1, candidate);
        assert(!looks_like(data, payload_base, table, length, known_sizes()[from]));
    }
}

/// No size is found where none fits.
proof fn lemma_no_fit(data: Seq<u8>, payload_base: int, table: int, length: int, from: int)
    requires
        0 <= from <= 19,
        !fits_earlier(data, payload_base, table, length, 19),
    ensures
        extractor::first_size(data, payload_base, table, length, from) == Err::<int, Failure>(
            Failure::ModuleSizeDetectionFailed { modules_length: length },
        ),
    decreases 19 - from,
{
    if from < 19 {
        lemma_known_sizes(from);
        lemma_looks_like(data, payload_base, table, length, known_sizes()[from]);
        lemma_no_fit(data, payload_base, table, length, from + 1);
        assert(!looks_like(data, payload_base, table, length, known_sizes()[from]));
    } else {
        lemma_known_sizes(0);
    }
}

/// The size of the module records is the first known one that the table can be made of; a table
/// that can be made of none is refused.
pub proof fn record_size_is_detected(
    data: Seq<u8>,
    payload_base: int,
    modules_offset: int,
    modules_length: int,
    candidate: int,
)
    requires
        payload_base + modules_offset <= usize::MAX,
    ensures
        ({
            let table = payload_base + modules_offset;
            &&& 0 <= candidate < 19 && looks_like(
                data,
                payload_base,
                table,
                modules_length,
                known_sizes()[candidate],
            ) && !fits_earlier(data, payload_base, table, modules_length, candidate)
                ==> extractor::module_struct_size(
                data,
                payload_base,
                modules_offset,
                modules_length,
            ) == Ok::<int, Failure>(known_sizes()[candidate])
            &&& !fits_earlier(data, payload_base, table, modules_length, 19)
                ==> extractor::module_struct_size(
                data,
                payload_base,
                modules_offset,
                modules_length,
            ) == Err::<int, Failure>(
                Failure::ModuleSizeDetectionFailed { modules_length },
            )
        }),
{
    let table = payload_base + modules_offset;
    if 0 <= candidate < 19 && looks_like(
        data,
        payload_base,
        table,
        modules_length,
        known_sizes()[candidate],
    ) && !fits_earlier(data, payload_base, table, modules_length, candidate) {
        lemma_first_fit(data, payload_base, table, modules_length, 0, candidate);
    }
    if !fits_earlier(data, payload_base, table, modules_length, 19) {
        lemma_no_fit(data, payload_base, table, modules_length, 0);
    }
}

/// Parsing an executable gives back the modules that its module table lists, all of them, in
/// order, byte for byte, for records of every candidate size. Left out are tables that also fit
/// records of a size that is tried first: an even number of 36-byte records, for one, looks like
/// half as many records of 72 bytes.
pub proof fn listed_modules_are_parsed(
    data: Seq<u8>,
    method: EmbedMethod,
    offsets: Offsets,
    payload_base: int,
    candidate: int,
    modules: Seq<GraphModule>,
)
    requires
        60 <= data.len() <= usize::MAX,
        offsets.byte_count <= usize::MAX,
        containers::embed_method_of(data) == Ok::<EmbedMethod, Failure>(method),
        extractor::payload_of(data, method) == Ok::<(Offsets, int), Failure>(
            (offsets, payload_base),
        ),
        0 <= candidate < 19,
        1 <= modules.len() <= 10000,
        offsets.modules_length == modules.len() * known_sizes()[candidate],
        offsets.entry_point_id < modules.len(),
        forall|i: int|
            #![trigger modules[i]]
            0 <= i < modules.len() ==> is_valid(modules[i]) && lists(
                data,
                payload_base,
                offsets.byte_count as int,
                payload_base + offsets.modules_offset + i * known_sizes()[candidate],
                known_sizes()[candidate],
                modules[i],
            ),
        !fits_earlier(
            data,
            payload_base,
            payload_base + offsets.modules_offset,
            offsets.modules_length as int,
            candidate,
        ),
    ensures
        extractor::binary_of(data) == Ok::<BinaryView, Failure>(
            BinaryView {
                embed_method: method,
                offsets,
                payload_base,
                module_struct_size: known_sizes()[candidate],
                modules: Seq::new(
                    modules.len(),
                    |i: int|
                        parsed_module(
                            modules[i],
                            known_sizes()[candidate],
                            i,
                            offsets.entry_point_id as int,
                        ),
                ),
                version: crate::format::version_of(
                    method,
                    known_sizes()[candidate],
                    offsets.flags,
                ),
                argv: extractor::argv_of(data, payload_base, offsets),
            },
        ),
{
    let size = known_sizes()[candidate];
    lemma_known_sizes(candidate);
    let count = modules.len() as int;
    let table = payload_base + offsets.modules_offset;
    let length = offsets.modules_length as int;
    let item = |i: int| extractor::module_at(data, payload_base, offsets, size, i);
    extractor::lemma_payload_base(data, method);
    assert(length / size == count && length % size == 0) by (nonlinear_arith)
        requires
            length == count * size,
            size > 0,
    ;
    assert forall|i: int| 0 <= i < count implies extractor::names_module(
        data,
        payload_base,
        #[trigger] (table + i * size),
    ) && item(i) == Ok::<ModuleView, Failure>(
        parsed_module(modules[i], size, i, offsets.entry_point_id as int),
    ) by {
        assert(is_valid(modules[i]));
        lemma_listed_module(data, payload_base, offsets, size, i, modules[i]);
    }
    assert(extractor::size_fits(data, payload_base, table, length, size));
    lemma_looks_like(data, payload_base, table, length, size);
    lemma_first_fit(data, payload_base, table, length, 0, candidate);
    assert(lists(data, payload_base, offsets.byte_count as int, table + 0 * size, size, modules[0]));
    let parsed = Seq::new(
        modules.len(),
        |i: int| parsed_module(modules[i], size, i, offsets.entry_point_id as int),
    );
    assert forall|i: int| 0 <= i < parsed.len() implies #[trigger] item(i) == Ok::<
        ModuleView,
        Failure,
    >(parsed[i]) by {
        assert(extractor::names_module(data, payload_base, table + i * size));
    }
    error::lemma_collect_all(item, parsed);
}

/// When so many records of one size fill the same table as records of another.
proof fn lemma_remainders(count: int)
    ensures
        count % 18 != 0 ==> (count * 52) % 72 != 0,
        count % 2 != 0 ==> (count * 36) % 72 != 0,
        count % 13 != 0 ==> (count * 36) % 52 != 0,
{
}

/// The candidate for packed records with six pointers.
pub const SIX_POINTERS: usize = 1;

/// The candidate for packed records with four pointers.
pub const FOUR_POINTERS: usize = 2;

/// When a module table cannot be mistaken for one of records of another size: packed records
/// with six pointers are told by their number alone unless it is a multiple of 18, and packed
/// records with four pointers if their number is odd and not a multiple of 13.
pub proof fn packed_records_are_told_apart(
    data: Seq<u8>,
    payload_base: int,
    table: int,
    candidate: int,
    count: int,
)
    requires
        count > 0,
        candidate == SIX_POINTERS && count % 18 != 0 || candidate == FOUR_POINTERS && count % 2 != 0
            && count % 13 != 0,
    ensures
        known_sizes()[SIX_POINTERS as int] == 52,
        known_sizes()[FOUR_POINTERS as int] == 36,
        !fits_earlier(
            data,
            payload_base,
            table,
            count * known_sizes()[candidate],
            candidate,
        ),
{
    assert(known_sizes()[0] == 72);
    assert(known_sizes()[1] == 52);
    assert(known_sizes()[2] == 36);
    let length = count * known_sizes()[candidate];
    lemma_remainders(count);
    assert forall|k: int| 0 <= k < candidate implies !looks_like(
        data,
        payload_base,
        table,
        length,
        #[trigger] known_sizes()[k],
    ) by {
        assert(length % known_sizes()[k] != 0);
    }
}

/// Whether four tags that all have a meaning stand at `at`.
pub open spec fn are_tags(data: Seq<u8>, at: int) -> bool {
    at + 4 <= data.len() && data[at] <= 2 && data[at + 1] <= 20 && data[at + 2] <= 2 && data[at + 3]
        <= 1
}

/// Whether `tags` are what the four tags at `at` stand for.
pub open spec fn tags_mean(data: Seq<u8>, at: int, tags: extractor::Tags) -> bool {
    &&& tags.0 == seq![Encoding::Binary, Encoding::Latin1, Encoding::Utf8][data[at] as int]
    &&& tags.1 == crate::format::loaders()[data[at + 1] as int]
    &&& tags.2 == seq![ModuleFormat::Unset, ModuleFormat::Esm, ModuleFormat::Cjs][data[at
        + 2] as int]
    &&& tags.3 == seq![FileSide::Server, FileSide::Client][data[at + 3] as int]
}

proof fn lemma_tags_mean(data: Seq<u8>, at: int)
    ensures
        (extractor::tags_at(data, at) is Some) == are_tags(data, at),
        extractor::tags_at(data, at) matches Some(tags) ==> tags_mean(data, at, tags),
{
    crate::format::loader_tags(data[at + 1]);
    crate::format::other_tags(data[at]);
    crate::format::other_tags(data[at + 2]);
    crate::format::other_tags(data[at + 3]);
}

/// The tags of a record stand behind its string pointers: 48 bytes into the packed record with six
/// of them, and 32 bytes into any other. Where no tags are there, they are looked for elsewhere in
/// the record, and if there are none at all, the module counts as a binary file of the server.
pub proof fn tags_are_found(data: Seq<u8>, at: int, size: int)
    requires
        size >= 36,
    ensures
        ({
            let tags = extractor::record_tags(data, at, size);
            let (first, second, third) = if size == 52 {
                (at + 48, at + 32, at + 44)
            } else {
                (at + 32, at + size - 4, at + size - 8)
            };
            if are_tags(data, first) {
                tags_mean(data, first, tags)
            } else if are_tags(data, second) {
                tags_mean(data, second, tags)
            } else if are_tags(data, third) {
                tags_mean(data, third, tags)
            } else {
                tags == (
                    Encoding::Binary,
                    crate::format::Loader::File,
                    ModuleFormat::Unset,
                    FileSide::Server,
                )
            }
        }),
{
    lemma_tags_mean(data, at + 48);
    lemma_tags_mean(data, at + 32);
    lemma_tags_mean(data, at + 44);
    lemma_tags_mean(data, at + size - 4);
    lemma_tags_mean(data, at + size - 8);
    assert(at + (size - 4) == at + size - 4 && at + (size - 8) == at + size - 8);
}

/// Whether the string pointer at `at` points to something, but not to bytes inside the payload and
/// the data.
pub open spec fn is_stray(data: Seq<u8>, payload_base: int, payload_size: int, at: int) -> bool {
    let offset = bytes::le_at(data, at, 4);
    let length = bytes::le_at(data, at + 4, 4);
    length > 0 && (offset + length > payload_size || payload_base + offset + length > data.len())
}

/// What becomes of a record with a string pointer that leaves the payload. Without its name, its
/// contents or its sourcemap the module cannot be read; anything else counts as absent then, and the
/// rest is read all the same. Empty strings are absent too.
pub proof fn stray_pointers(
    data: Seq<u8>,
    payload_base: int,
    offsets: Offsets,
    size: int,
    index: int,
)
    requires
        size >= 36,
        0 <= payload_base,
    ensures
        ({
            let at = payload_base + offsets.modules_offset + index * size;
            let payload_size = offsets.byte_count as int;
            let module = extractor::module_at(data, payload_base, offsets, size, index);
            &&& 0 <= at && is_stray(data, payload_base, payload_size, at) ==> module is Err
            &&& 0 <= at && is_stray(data, payload_base, payload_size, at + 8) ==> module is Err
            &&& 0 <= at && at + 24 <= data.len() && is_stray(
                data,
                payload_base,
                payload_size,
                at + 16,
            ) ==> module is Err
            &&& at <= usize::MAX && at + 16 > data.len() ==> module == Err::<ModuleView, Failure>(
                Failure::CorruptModuleGraph { index },
            )
            &&& 0 <= at <= usize::MAX && at + 16 <= data.len() && is_stray(
                data,
                payload_base,
                payload_size,
                at,
            ) ==> module == Err::<ModuleView, Failure>(
                Failure::StringOutOfBounds {
                    offset: bytes::le_at(data, at, 4) as int,
                    length: bytes::le_at(data, at + 4, 4) as int,
                    payload_size,
                },
            )
            &&& 0 <= at <= usize::MAX && at + 16 <= data.len() && is_sound(
                data,
                payload_base,
                payload_size,
                at,
            ) && !vstd::utf8::valid_utf8(bytes_at(data, payload_base, at)) ==> module == Err::<
                ModuleView,
                Failure,
            >(Failure::InvalidModuleName { index })
            &&& module matches Ok(view) ==> {
                &&& view.index == index
                &&& view.is_entry_point <==> index == offsets.entry_point_id
                &&& bytes::le_at(data, at + 12, 4) == 0 ==> view.contents.len() == 0
                &&& bytes::le_at(data, at + 20, 4) == 0 ==> view.sourcemap is None
                &&& bytes::le_at(data, at + 28, 4) == 0 || is_stray(
                    data,
                    payload_base,
                    payload_size,
                    at + 24,
                ) ==> view.bytecode is None
                &&& bytes::le_at(data, at + 36, 4) == 0 || size != 52 || is_stray(
                    data,
                    payload_base,
                    payload_size,
                    at + 32,
                ) ==> view.module_info is None
                &&& bytes::le_at(data, at + 44, 4) == 0 || size != 52 || is_stray(
                    data,
                    payload_base,
                    payload_size,
                    at + 40,
                ) ==> view.bytecode_origin_path is None
            }
        }),
{
    let at = payload_base + offsets.modules_offset + index * size;
    bytes::lemma_le_at_bound(data, at);
    bytes::lemma_le_at_bound(data, at + 4);
    bytes::lemma_le_at_bound(data, at + 8);
    bytes::lemma_le_at_bound(data, at + 12);
    bytes::lemma_le_at_bound(data, at + 16);
    bytes::lemma_le_at_bound(data, at + 20);
    bytes::lemma_le_at_bound(data, at + 24);
    bytes::lemma_le_at_bound(data, at + 28);
    bytes::lemma_le_at_bound(data, at + 32);
    bytes::lemma_le_at_bound(data, at + 36);
    bytes::lemma_le_at_bound(data, at + 40);
    bytes::lemma_le_at_bound(data, at + 44);
    text::encoded_text_is_read(bytes_at(data, payload_base, at), Seq::empty());
}

/// Whether the string pointer at `at` points to bytes inside the payload and the data.
pub open spec fn is_sound(data: Seq<u8>, payload_base: int, payload_size: int, at: int) -> bool {
    let offset = bytes::le_at(data, at, 4);
    let length = bytes::le_at(data, at + 4, 4);
    &&& at + 8 <= data.len()
    &&& length > 0
    &&& offset + length <= payload_size
    &&& payload_base + offset + length <= data.len()
}

/// The bytes that the string pointer at `at` points to.
pub open spec fn bytes_at(data: Seq<u8>, payload_base: int, at: int) -> Seq<u8> {
    let start = payload_base + bytes::le_at(data, at, 4);
    data.subrange(start, start + bytes::le_at(data, at + 4, 4))
}

/// What a record that can be read says of its module, whatever else the executable holds. The name is
/// the text that the first pointer of the record points to, and each blob is what its pointer points
/// to: the contents follow the name, then come the sourcemap and the bytecode, and in the packed
/// record with six pointers the module info and the origin of the bytecode.
pub proof fn record_fields(
    data: Seq<u8>,
    payload_base: int,
    offsets: Offsets,
    size: int,
    index: int,
)
    requires
        size >= 36,
        0 <= payload_base,
        0 <= index,
        extractor::module_at(data, payload_base, offsets, size, index) is Ok,
    ensures
        ({
            let at = payload_base + offsets.modules_offset + index * size;
            let payload_size = offsets.byte_count as int;
            let module = extractor::module_at(data, payload_base, offsets, size, index)->Ok_0;
            &&& module.index == index
            &&& module.is_entry_point <==> index == offsets.entry_point_id
            &&& bytes_at(data, payload_base, at) == vstd::utf8::encode_utf8(module.name)
            &&& is_sound(data, payload_base, payload_size, at + 8) ==> module.contents == bytes_at(
                data,
                payload_base,
                at + 8,
            )
            &&& is_sound(data, payload_base, payload_size, at + 16) ==> module.sourcemap == Some(
                bytes_at(data, payload_base, at + 16),
            )
            &&& is_sound(data, payload_base, payload_size, at + 24) ==> module.bytecode == Some(
                bytes_at(data, payload_base, at + 24),
            )
            &&& size == 52 && is_sound(data, payload_base, payload_size, at + 32)
                ==> module.module_info == Some(bytes_at(data, payload_base, at + 32))
            &&& size == 52 && is_sound(data, payload_base, payload_size, at + 40)
                ==> module.bytecode_origin_path == text::utf8_text(
                bytes_at(data, payload_base, at + 40),
            )
            &&& (module.encoding, module.loader, module.module_format, module.side)
                == extractor::record_tags(data, at, size)
        }),
{
    assert(0 <= index * size) by (nonlinear_arith)
        requires
            0 <= index,
            size >= 36,
    ;
    let at = payload_base + offsets.modules_offset + index * size;
    bytes::lemma_le_at_bound(data, at);
    bytes::lemma_le_at_bound(data, at + 4);
    bytes::lemma_le_at_bound(data, at + 8);
    bytes::lemma_le_at_bound(data, at + 12);
    bytes::lemma_le_at_bound(data, at + 16);
    bytes::lemma_le_at_bound(data, at + 20);
    bytes::lemma_le_at_bound(data, at + 24);
    bytes::lemma_le_at_bound(data, at + 28);
    bytes::lemma_le_at_bound(data, at + 32);
    bytes::lemma_le_at_bound(data, at + 36);
    bytes::lemma_le_at_bound(data, at + 40);
    bytes::lemma_le_at_bound(data, at + 44);
    let module = extractor::module_at(data, payload_base, offsets, size, index)->Ok_0;
    text::encoded_text_is_read(bytes_at(data, payload_base, at), module.name);
}

/// A string pointer is followed exactly if the bytes that it points to lie inside the payload and the
/// data; otherwise the error says what it points to.
pub proof fn pointers_are_followed(
    before: Seq<u8>,
    own: Seq<u8>,
    after: Seq<u8>,
    payload_base: int,
    pointer: StringPointer,
    payload_size: int,
)
    ensures
        ({
            let data = before + own + after;
            &&& payload_base + pointer.offset == before.len() && pointer.length == own.len()
                && pointer.offset + pointer.length <= payload_size ==> extractor::pointed_bytes(
                data,
                payload_base,
                pointer,
                payload_size,
            ) == Ok::<Seq<u8>, Failure>(own)
            &&& pointer.offset + pointer.length > payload_size || payload_base + pointer.offset
                + pointer.length > data.len() ==> extractor::pointed_bytes(
                data,
                payload_base,
                pointer,
                payload_size,
            ) == Err::<Seq<u8>, Failure>(
                Failure::StringOutOfBounds {
                    offset: pointer.offset as int,
                    length: pointer.length as int,
                    payload_size,
                },
            )
        }),
{
    let data = before + own + after;
    assert(data.subrange(before.len() as int, (before.len() + own.len()) as int) =~= own);
}

/// The build-time arguments are the text that the offsets record points to, if it lies inside the
/// data and is one.
pub proof fn arguments_are_read(
    data: Seq<u8>,
    payload_base: int,
    offsets: Offsets,
    arguments: Seq<char>,
)
    ensures
        ({
            let start = payload_base + offsets.argv_offset;
            let end = start + offsets.argv_length;
            &&& end <= data.len() && data.subrange(start, end) == vstd::utf8::encode_utf8(arguments)
                ==> extractor::argv_of(data, payload_base, offsets) == Some(arguments)
            &&& end > data.len() ==> extractor::argv_of(data, payload_base, offsets) is None
            &&& !vstd::utf8::valid_utf8(data.subrange(start, end)) ==> extractor::argv_of(
                data,
                payload_base,
                offsets,
            ) is None
        }),
{
    let start = payload_base + offsets.argv_offset;
    text::encoded_text_is_read(data.subrange(start, start + offsets.argv_length), arguments);
}

/// Where an appended payload lies: in front of the last 56 bytes of the file, which are the offsets
/// record, the trailer and a size. It has at least 32 bytes, all of them in the file, and fewer
/// than that size; otherwise the executable is refused.
pub proof fn appended_payload_bounds(data: Seq<u8>)
    requires
        data.len() >= 60,
    ensures
        ({
            let record = data.len() - 56;
            let byte_count = bytes::le_at(data, record, 8);
            let found = extractor::payload_of(data, EmbedMethod::Appended);
            &&& 32 <= byte_count <= record && byte_count < bytes::le_at(data, data.len() - 8, 8)
                ==> found == Ok::<(Offsets, int), Failure>(
                (crate::format::offsets_at(data, record), record - byte_count),
            )
            &&& byte_count < 32 || byte_count > record || byte_count >= bytes::le_at(
                data,
                data.len() - 8,
                8,
            ) ==> found == Err::<(Offsets, int), Failure>(
                Failure::InvalidOffsets { byte_count: byte_count as int },
            )
        }),
{
    bytes::lemma_le_at_bound(data, data.len() - 56);
}

/// Where the payload in a section lies: behind the eight bytes that tell the length of what follows,
/// which is the payload, the offsets record and the trailer. A length that leaves the file or has no
/// room for the last two is refused.
pub proof fn section_payload_bounds(data: Seq<u8>, section_offset: usize)
    requires
        data.len() <= usize::MAX,
    ensures
        ({
            let start = section_offset + 8;
            let length = bytes::le_at(data, section_offset as int, 8);
            forall|method: EmbedMethod|
                #![trigger extractor::payload_of(data, method)]
                method == (EmbedMethod::ElfSection { section_offset }) || method
                    == (EmbedMethod::PeSection { section_offset }) || method
                    == (EmbedMethod::MachoSection { section_offset }) ==> {
                    let found = extractor::payload_of(data, method);
                    &&& start <= data.len() && 48 <= length && start + length <= data.len()
                        ==> found == Ok::<(Offsets, int), Failure>(
                        (crate::format::offsets_at(data, start + length - 48), start),
                    )
                    &&& start > data.len() || length < 48 || start + length > data.len()
                        ==> found is Err
                }
        }),
{
}

/// Which executables are refused for their size or their entry point, and that what goes wrong first
/// is reported.
pub proof fn refused_executables(data: Seq<u8>)
    ensures
        data.len() >= 60 ==> match containers::embed_method_of(data) {
            Err(failure) => extractor::binary_of(data) == Err::<BinaryView, Failure>(failure),
            Ok(method) => match extractor::payload_of(data, method) {
                Err(failure) => extractor::binary_of(data) == Err::<BinaryView, Failure>(failure),
                Ok((offsets, payload_base)) => match extractor::module_struct_size(
                    data,
                    payload_base,
                    offsets.modules_offset as int,
                    offsets.modules_length as int,
                ) {
                    Err(failure) => extractor::binary_of(data) == Err::<BinaryView, Failure>(
                        failure,
                    ),
                    Ok(size) => offsets.entry_point_id >= offsets.modules_length as int / size
                        ==> extractor::binary_of(data) == Err::<BinaryView, Failure>(
                        Failure::InvalidOffsets { byte_count: offsets.byte_count as int },
                    ),
                },
            },
        },
        data.len() < 60 ==> extractor::binary_of(data) == Err::<BinaryView, Failure>(
            Failure::FileTooSmall { size: data.len() as int },
        ),
        extractor::binary_of(data) matches Ok(binary) ==> {
            &&& data.len() >= 60
            &&& containers::embed_method_of(data) == Ok::<EmbedMethod, Failure>(
                binary.embed_method,
            )
            &&& extractor::payload_of(data, binary.embed_method) == Ok::<(Offsets, int), Failure>(
                (binary.offsets, binary.payload_base),
            )
            &&& 1 <= binary.modules.len() <= 10000
            &&& binary.offsets.entry_point_id < binary.modules.len()
            &&& binary.offsets.modules_length == binary.modules.len() * binary.module_struct_size
            &&& known_sizes().contains(binary.module_struct_size)
            &&& binary.argv == extractor::argv_of(data, binary.payload_base, binary.offsets)
            &&& forall|i: int|
                #![trigger binary.modules[i]]
                0 <= i < binary.modules.len() ==> extractor::module_at(
                    data,
                    binary.payload_base,
                    binary.offsets,
                    binary.module_struct_size,
                    i,
                ) == Ok::<ModuleView, Failure>(binary.modules[i])
        },
{
    if let Ok(binary) = extractor::binary_of(data) {
        extractor::modules_in_order(data);
        let table = binary.payload_base + binary.offsets.modules_offset;
        let length = binary.offsets.modules_length as int;
        extractor::lemma_first_size(data, binary.payload_base, table, length, 0);
        let k = choose|k: int|
            0 <= k < CANDIDATE_STRUCT_SIZES@.len() && #[trigger] CANDIDATE_STRUCT_SIZES@[k]
                == binary.module_struct_size;
        lemma_known_sizes(0);
        lemma_known_sizes(k);
        assert(known_sizes()[k] == binary.module_struct_size);
        let item = |i: int|
            extractor::module_at(
                data,
                binary.payload_base,
                binary.offsets,
                binary.module_struct_size,
                i,
            );
        vstd::arithmetic::div_mod::lemma_div_pos_is_pos(length, binary.module_struct_size);
        error::lemma_collect_items(item, length / binary.module_struct_size);
        assert forall|i: int| #![trigger binary.modules[i]] 0 <= i < binary.modules.len() implies
            extractor::module_at(
            data,
            binary.payload_base,
            binary.offsets,
            binary.module_struct_size,
            i,
        ) == Ok::<ModuleView, Failure>(binary.modules[i]) by {
            assert(item(i) == Ok::<ModuleView, Failure>(binary.modules[i]));
        }
    }
}

} // verus!
