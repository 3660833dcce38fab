//! What an appended payload holds does not depend on the program in front of it.

use vstd::prelude::*;

use crate::bytes;
use crate::containers;
use crate::error;
use crate::error::Failure;
use crate::extractor;
use crate::extractor::BinaryView;
use crate::format::{
    EmbedMethod, ModuleView, Offsets, StringPointer, CANDIDATE_STRUCT_SIZES, OFFSETS_SIZE,
};

verus! {

/// A number is the same where it stands behind other bytes.
proof fn lemma_number(prefix: Seq<u8>, data: Seq<u8>, at: int, width: nat)
    requires
        0 <= at,
        at + width <= data.len(),
    ensures
        bytes::le_at(prefix + data, prefix.len() + at, width) == bytes::le_at(data, at, width),
{
    assert forall|i: int| 0 <= i < width implies #[trigger] (prefix + data)[prefix.len() + at + i]
        == data[at + i] by {}
    bytes::lemma_le_at_same(prefix + data, data, prefix.len() + at, at, width);
}

/// So is a part of the data.
proof fn lemma_part(prefix: Seq<u8>, data: Seq<u8>, start: int, end: int)
    requires
        0 <= start <= end <= data.len(),
    ensures
        (prefix + data).subrange(prefix.len() + start, prefix.len() + end) == data.subrange(
            start,
            end,
        ),
{
    assert((prefix + data).subrange(prefix.len() + start, prefix.len() + end) =~= data.subrange(
        start,
        end,
    ));
}

/// So is a string pointer.
proof fn lemma_pointer(prefix: Seq<u8>, data: Seq<u8>, at: int)
    requires
        0 <= at,
        at + 8 <= data.len(),
    ensures
        crate::format::string_pointer_at(prefix + data, prefix.len() + at)
            == crate::format::string_pointer_at(data, at),
{
    lemma_number(prefix, data, at, 4);
    lemma_number(prefix, data, at + 4, 4);
}

/// So is what a string pointer points to.
proof fn lemma_pointed(
    prefix: Seq<u8>,
    data: Seq<u8>,
    base: int,
    pointer: StringPointer,
    payload_size: int,
)
    requires
        0 <= base,
    ensures
        extractor::pointed_bytes(prefix + data, prefix.len() + base, pointer, payload_size)
            == extractor::pointed_bytes(data, base, pointer, payload_size),
{
    let start = base + pointer.offset;
    if start + pointer.length <= data.len() {
        lemma_part(prefix, data, start, start + pointer.length);
    }
}

/// So is what the string pointer at `at` points to.
proof fn lemma_field(prefix: Seq<u8>, data: Seq<u8>, base: int, at: int, payload_size: int)
    requires
        0 <= base,
        0 <= at,
        at + 8 <= data.len(),
    ensures
        ({
            let whole = prefix + data;
            let moved = crate::format::string_pointer_at(whole, prefix.len() + at);
            let pointer = crate::format::string_pointer_at(data, at);
            &&& extractor::pointed_bytes(whole, prefix.len() + base, moved, payload_size)
                == extractor::pointed_bytes(data, base, pointer, payload_size)
            &&& extractor::nonempty_bytes(whole, prefix.len() + base, moved, payload_size)
                == extractor::nonempty_bytes(data, base, pointer, payload_size)
        }),
{
    lemma_pointer(prefix, data, at);
    lemma_pointed(
        prefix,
        data,
        base,
        crate::format::string_pointer_at(data, at),
        payload_size,
    );
}

/// So is a later field of a record.
proof fn lemma_extra(
    prefix: Seq<u8>,
    data: Seq<u8>,
    base: int,
    at: int,
    payload_size: int,
    present: bool,
)
    requires
        0 <= base,
        0 <= at,
    ensures
        extractor::extra_bytes(
            prefix + data,
            prefix.len() + base,
            prefix.len() + at,
            payload_size,
            present,
        ) == extractor::extra_bytes(data, base, at, payload_size, present),
{
    if at + 8 <= data.len() {
        lemma_field(prefix, data, base, at, payload_size);
    }
}

/// So are the tags of a record.
proof fn lemma_tags(prefix: Seq<u8>, data: Seq<u8>, at: int, struct_size: int)
    requires
        0 <= at,
    ensures
        extractor::record_tags(prefix + data, prefix.len() + at, struct_size)
            == extractor::record_tags(data, at, struct_size),
{
    if struct_size >= 36 {
        let places = extractor::tag_places(struct_size);
        assert forall|k: int| 0 <= k < 3 implies #[trigger] extractor::tags_at(
            prefix + data,
            prefix.len() + at + places[k],
        ) == extractor::tags_at(data, at + places[k]) by {
            let place = at + places[k];
            assert(places[k] >= 0);
            if place + 4 <= data.len() {
                assert((prefix + data)[prefix.len() + place] == data[place]);
                assert((prefix + data)[prefix.len() + place + 1] == data[place + 1]);
                assert((prefix + data)[prefix.len() + place + 2] == data[place + 2]);
                assert((prefix + data)[prefix.len() + place + 3] == data[place + 3]);
            }
        }
        assert(extractor::tags_at(prefix + data, prefix.len() + at + places[0])
            == extractor::tags_at(data, at + places[0]));
        assert(extractor::tags_at(prefix + data, prefix.len() + at + places[1])
            == extractor::tags_at(data, at + places[1]));
        assert(extractor::tags_at(prefix + data, prefix.len() + at + places[2])
            == extractor::tags_at(data, at + places[2]));
    }
}

/// So is whether a record names a module.
proof fn lemma_names_module(prefix: Seq<u8>, data: Seq<u8>, base: int, at: int)
    requires
        0 <= base,
        0 <= at,
    ensures
        extractor::names_module(prefix + data, prefix.len() + base, prefix.len() + at)
            == extractor::names_module(data, base, at),
{
    if at + 8 <= data.len() {
        lemma_pointer(prefix, data, at);
        let pointer = crate::format::string_pointer_at(data, at);
        let start = base + pointer.offset;
        if start + pointer.length <= data.len() {
            lemma_part(prefix, data, start, start + pointer.length);
        }
    }
}

/// So is whether the module table fits records of a size.
proof fn lemma_size_fits(
    prefix: Seq<u8>,
    data: Seq<u8>,
    base: int,
    table: int,
    length: int,
    size: int,
)
    requires
        0 <= base,
        0 <= table,
        0 < size,
    ensures
        extractor::size_fits(
            prefix + data,
            prefix.len() + base,
            prefix.len() + table,
            length,
            size,
        ) == extractor::size_fits(data, base, table, length, size),
{
    let whole = prefix + data;
    let moved = prefix.len() + table;
    assert forall|i: int| 0 <= i implies extractor::names_module(
        whole,
        prefix.len() + base,
        #[trigger] (moved + i * size),
    ) == extractor::names_module(data, base, table + i * size) by {
        assert(0 <= i * size) by (nonlinear_arith)
            requires
                0 <= i,
                0 < size,
        ;
        lemma_names_module(prefix, data, base, table + i * size);
        assert(moved + i * size == prefix.len() + (table + i * size));
    }
    if extractor::size_fits(whole, prefix.len() + base, moved, length, size) {
        assert forall|i: int| 0 <= i < length / size implies extractor::names_module(
            data,
            base,
            #[trigger] (table + i * size),
        ) by {
            assert(extractor::names_module(whole, prefix.len() + base, moved + i * size));
        }
    }
    if extractor::size_fits(data, base, table, length, size) {
        assert forall|i: int| 0 <= i < length / size implies extractor::names_module(
            whole,
            prefix.len() + base,
            #[trigger] (moved + i * size),
        ) by {
            assert(extractor::names_module(data, base, table + i * size));
        }
    }
}

/// So is the size of the module records.
proof fn lemma_first_size(
    prefix: Seq<u8>,
    data: Seq<u8>,
    base: int,
    table: int,
    length: int,
    candidate: int,
)
    requires
        0 <= base,
        0 <= table,
        0 <= candidate,
    ensures
        extractor::first_size(
            prefix + data,
            prefix.len() + base,
            prefix.len() + table,
            length,
            candidate,
        ) == extractor::first_size(data, base, table, length, candidate),
    decreases CANDIDATE_STRUCT_SIZES@.len() - candidate,
{
    if candidate < CANDIDATE_STRUCT_SIZES@.len() {
        extractor::lemma_candidates(candidate);
        lemma_size_fits(
            prefix,
            data,
            base,
            table,
            length,
            CANDIDATE_STRUCT_SIZES@[candidate] as int,
        );
        lemma_first_size(prefix, data, base, table, length, candidate + 1);
    }
}

/// So is a module.
proof fn lemma_module(
    prefix: Seq<u8>,
    data: Seq<u8>,
    base: int,
    offsets: Offsets,
    struct_size: int,
    index: int,
)
    requires
        0 <= base,
        0 <= index,
        0 < struct_size,
        extractor::module_at(data, base, offsets, struct_size, index) is Ok,
        prefix.len() + data.len() <= usize::MAX,
    ensures
        extractor::module_at(prefix + data, prefix.len() + base, offsets, struct_size, index)
            == extractor::module_at(data, base, offsets, struct_size, index),
{
    assert(0 <= index * struct_size) by (nonlinear_arith)
        requires
            0 <= index,
            0 < struct_size,
    ;
    let at = base + offsets.modules_offset + index * struct_size;
    let payload_size = offsets.byte_count as int;
    let six = struct_size == crate::format::SIX_POINTER_STRUCT_SIZE;
    lemma_field(prefix, data, base, at, payload_size);
    lemma_field(prefix, data, base, at + 8, payload_size);
    if at + 24 <= data.len() {
        lemma_field(prefix, data, base, at + 16, payload_size);
    }
    lemma_extra(prefix, data, base, at + 24, payload_size, struct_size >= 32);
    lemma_extra(prefix, data, base, at + 32, payload_size, six);
    lemma_extra(prefix, data, base, at + 40, payload_size, six);
    lemma_tags(prefix, data, at, struct_size);
}

/// So is where an appended payload starts, counted from where the data starts.
proof fn lemma_payload(prefix: Seq<u8>, data: Seq<u8>)
    requires
        data.len() >= extractor::MIN_FILE_SIZE,
        containers::has_trailer(data),
    ensures
        containers::has_trailer(prefix + data),
        extractor::appended_payload(data) matches Ok((offsets, base)) ==> {
            &&& 0 <= base
            &&& extractor::appended_payload(prefix + data) == Ok::<(Offsets, int), Failure>(
                (offsets, prefix.len() + base),
            )
        },
{
    let record = data.len() - 24 - OFFSETS_SIZE;
    lemma_part(prefix, data, data.len() - 24, data.len() - 8);
    lemma_number(prefix, data, record, 8);
    lemma_number(prefix, data, record + 8, 4);
    lemma_number(prefix, data, record + 12, 4);
    lemma_number(prefix, data, record + 16, 4);
    lemma_number(prefix, data, record + 20, 4);
    lemma_number(prefix, data, record + 24, 4);
    lemma_number(prefix, data, record + 28, 4);
    lemma_number(prefix, data, data.len() - 8, 8);
}

/// So is the size of the module records, where it was found.
proof fn lemma_struct_size(prefix: Seq<u8>, data: Seq<u8>, base: int, offset: int, length: int)
    requires
        0 <= base,
        0 <= offset,
        extractor::module_struct_size(data, base, offset, length) is Ok,
        prefix.len() + data.len() <= usize::MAX,
    ensures
        prefix.len() + base + offset <= usize::MAX,
        extractor::module_struct_size(prefix + data, prefix.len() + base, offset, length)
            == extractor::module_struct_size(data, base, offset, length),
{
    let table = base + offset;
    let size = extractor::module_struct_size(data, base, offset, length)->Ok_0;
    extractor::lemma_first_size(data, base, table, length, 0);
    lemma_first_size(prefix, data, base, table, length, 0);
    assert(length / size >= 1) by (nonlinear_arith)
        requires
            length > 0,
            length % size == 0,
            size > 0,
    ;
    assert(extractor::names_module(data, base, table + 0 * size));
}

/// So are the modules.
proof fn lemma_modules(prefix: Seq<u8>, data: Seq<u8>, base: int, offsets: Offsets, size: int)
    requires
        0 <= base,
        0 < size,
        extractor::modules_of(data, base, offsets, size) is Ok,
        prefix.len() + base + offsets.modules_offset <= usize::MAX,
        prefix.len() + data.len() <= usize::MAX,
    ensures
        extractor::modules_of(prefix + data, prefix.len() + base, offsets, size)
            == extractor::modules_of(data, base, offsets, size),
{
    let whole = prefix + data;
    let count = offsets.modules_length as int / size;
    let item = |i: int| extractor::module_at(data, base, offsets, size, i);
    let moved = |i: int| extractor::module_at(whole, prefix.len() + base, offsets, size, i);
    vstd::arithmetic::div_mod::lemma_div_pos_is_pos(offsets.modules_length as int, size);
    error::lemma_collect_items(item, count);
    let modules = extractor::modules_of(data, base, offsets, size)->Ok_0;
    assert forall|i: int| 0 <= i < count implies #[trigger] moved(i) == item(i) by {
        assert(item(i) == Ok::<ModuleView, Failure>(modules[i]));
        lemma_module(prefix, data, base, offsets, size, i);
    }
    error::lemma_collect_same(moved, item, count);
}

/// So are the arguments.
proof fn lemma_argv(prefix: Seq<u8>, data: Seq<u8>, base: int, offsets: Offsets)
    requires
        0 <= base,
    ensures
        extractor::argv_of(prefix + data, prefix.len() + base, offsets) == extractor::argv_of(
            data,
            base,
            offsets,
        ),
{
    let start = base + offsets.argv_offset;
    if start + offsets.argv_length <= data.len() {
        lemma_part(prefix, data, start, start + offsets.argv_length);
    }
}

/// Bytes in front of an executable with an appended payload, such as another program, move the
/// payload and change nothing else.
pub proof fn bytes_in_front_change_nothing(prefix: Seq<u8>, data: Seq<u8>)
    requires
        extractor::binary_of(data) matches Ok(binary) && binary.embed_method
            == EmbedMethod::Appended,
        prefix.len() + data.len() <= usize::MAX,
    ensures
        ({
            let binary = extractor::binary_of(data)->Ok_0;
            extractor::binary_of(prefix + data) == Ok::<BinaryView, Failure>(
                BinaryView { payload_base: prefix.len() + binary.payload_base, ..binary },
            )
        }),
{
    let binary = extractor::binary_of(data)->Ok_0;
    let offsets = binary.offsets;
    let base = binary.payload_base;
    let size = binary.module_struct_size;
    let table = base + offsets.modules_offset;
    let length = offsets.modules_length as int;
    assert(containers::has_trailer(data)) by {
        containers::method_fits_file(data);
    }
    lemma_payload(prefix, data);
    assert(36 <= size) by {
        extractor::lemma_first_size(data, base, table, length, 0);
    }
    lemma_struct_size(prefix, data, base, offsets.modules_offset as int, length);
    lemma_modules(prefix, data, base, offsets, size);
    lemma_argv(prefix, data, base, offsets);
}

} // verus!
