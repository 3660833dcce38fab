//! How mappings are written in Bun's binary form, and that decoding reads them back.

use vstd::prelude::*;

use crate::bytes;
use crate::error::Failure;
use crate::internal_map;
use crate::internal_map::{Window, FLAG_HAS_GEN_LINE_EXCEPTIONS, FLAG_HAS_SRC_IDX};
use crate::mappings;
use crate::mappings::MapState;
use crate::vlq;

verus! {

/// The pieces `piece(0)`, `piece(1)`, .. `piece(count - 1)` one behind the other.
pub open spec fn lane(piece: spec_fn(int) -> Seq<u8>, count: int) -> Seq<u8>
    decreases count,
{
    if count <= 0 {
        Seq::empty()
    } else {
        lane(piece, count - 1) + piece(count - 1)
    }
}

/// A lane begins with each shorter one.
proof fn lemma_lane_prefix(piece: spec_fn(int) -> Seq<u8>, shorter: int, longer: int)
    requires
        0 <= shorter <= longer,
    ensures
        lane(piece, shorter).len() <= lane(piece, longer).len(),
        lane(piece, longer).take(lane(piece, shorter).len() as int) == lane(piece, shorter),
    decreases longer,
{
    let short = lane(piece, shorter);
    if shorter < longer {
        lemma_lane_prefix(piece, shorter, longer - 1);
        assert(lane(piece, longer).take(short.len() as int) =~= lane(piece, longer - 1).take(
            short.len() as int,
        ));
    } else {
        assert(short.take(short.len() as int) =~= short);
    }
}

/// Each piece lies in its lane behind the pieces in front of it.
proof fn lemma_lane_piece(piece: spec_fn(int) -> Seq<u8>, index: int, count: int)
    requires
        0 <= index < count,
    ensures
        lane(piece, index).len() + piece(index).len() == lane(piece, index + 1).len(),
        lane(piece, index + 1).len() <= lane(piece, count).len(),
        lane(piece, count).subrange(
            lane(piece, index).len() as int,
            lane(piece, index + 1).len() as int,
        ) == piece(index),
{
    lemma_lane_prefix(piece, index + 1, count);
    let whole = lane(piece, count);
    let start = lane(piece, index).len() as int;
    let end = lane(piece, index + 1).len() as int;
    assert(whole.subrange(start, end) =~= whole.take(end).subrange(start, end));
    assert(lane(piece, index + 1).subrange(start, end) =~= piece(index));
}

/// Where a lane lies in the bytes, so does each of its pieces.
proof fn lemma_piece_in_bytes(
    bytes: Seq<u8>,
    base: int,
    piece: spec_fn(int) -> Seq<u8>,
    index: int,
    count: int,
)
    requires
        0 <= index < count,
        0 <= base,
        base + lane(piece, count).len() <= bytes.len(),
        bytes.subrange(base, base + lane(piece, count).len()) == lane(piece, count),
    ensures
        ({
            let start = base + lane(piece, index).len();
            let end = base + lane(piece, index + 1).len();
            &&& end == start + piece(index).len()
            &&& end <= base + lane(piece, count).len()
            &&& bytes.subrange(start, end) == piece(index)
        }),
{
    lemma_lane_piece(piece, index, count);
    let start = lane(piece, index).len() as int;
    let end = lane(piece, index + 1).len() as int;
    assert(bytes.subrange(base + start, base + end) =~= bytes.subrange(
        base,
        base + lane(piece, count).len(),
    ).subrange(start, end));
}

/// The byte with these bits, the lowest first.
pub open spec fn bits_byte(
    b0: bool,
    b1: bool,
    b2: bool,
    b3: bool,
    b4: bool,
    b5: bool,
    b6: bool,
    b7: bool,
) -> u8 {
    (if b0 { 1u8 } else { 0u8 }) | (if b1 { 2u8 } else { 0u8 }) | (if b2 { 4u8 } else { 0u8 }) | (
    if b3 { 8u8 } else { 0u8 }) | (if b4 { 16u8 } else { 0u8 }) | (if b5 { 32u8 } else { 0u8 }) | (
    if b6 { 64u8 } else { 0u8 }) | (if b7 { 128u8 } else { 0u8 })
}

proof fn lemma_bits_byte(
    b0: bool,
    b1: bool,
    b2: bool,
    b3: bool,
    b4: bool,
    b5: bool,
    b6: bool,
    b7: bool,
)
    ensures
        ({
            let byte = bits_byte(b0, b1, b2, b3, b4, b5, b6, b7);
            &&& ((byte >> 0u8) & 1 != 0) == b0
            &&& ((byte >> 1u8) & 1 != 0) == b1
            &&& ((byte >> 2u8) & 1 != 0) == b2
            &&& ((byte >> 3u8) & 1 != 0) == b3
            &&& ((byte >> 4u8) & 1 != 0) == b4
            &&& ((byte >> 5u8) & 1 != 0) == b5
            &&& ((byte >> 6u8) & 1 != 0) == b6
            &&& ((byte >> 7u8) & 1 != 0) == b7
        }),
{
    assert({
        let byte = bits_byte(b0, b1, b2, b3, b4, b5, b6, b7);
        &&& ((byte >> 0u8) & 1 != 0) == b0
        &&& ((byte >> 1u8) & 1 != 0) == b1
        &&& ((byte >> 2u8) & 1 != 0) == b2
        &&& ((byte >> 3u8) & 1 != 0) == b3
        &&& ((byte >> 4u8) & 1 != 0) == b4
        &&& ((byte >> 5u8) & 1 != 0) == b5
        &&& ((byte >> 6u8) & 1 != 0) == b6
        &&& ((byte >> 7u8) & 1 != 0) == b7
    }) by (bit_vector);
}

/// The mask of eight bytes with these bits.
pub open spec fn mask_bytes(bit: spec_fn(int) -> bool) -> Seq<u8> {
    Seq::new(
        8,
        |i: int|
            bits_byte(
                bit(8 * i),
                bit(8 * i + 1),
                bit(8 * i + 2),
                bit(8 * i + 3),
                bit(8 * i + 4),
                bit(8 * i + 5),
                bit(8 * i + 6),
                bit(8 * i + 7),
            ),
    )
}

/// The bits of a mask are read back.
proof fn lemma_mask_bit(bytes: Seq<u8>, base: int, bit: spec_fn(int) -> bool, index: int)
    requires
        0 <= base,
        base + 8 <= bytes.len(),
        bytes.subrange(base, base + 8) == mask_bytes(bit),
        0 <= index < 64,
    ensures
        internal_map::bit_at(bytes, base, index) == bit(index),
{
    let i = index / 8;
    assert(bytes[base + i] == bytes.subrange(base, base + 8)[i]);
    lemma_bits_byte(
        bit(8 * i),
        bit(8 * i + 1),
        bit(8 * i + 2),
        bit(8 * i + 3),
        bit(8 * i + 4),
        bit(8 * i + 5),
        bit(8 * i + 6),
        bit(8 * i + 7),
    );
    let j = index % 8;
    assert(index == 8 * i + j);
    assert(j == 0 || j == 1 || j == 2 || j == 3 || j == 4 || j == 5 || j == 6 || j == 7);
}

/// A number as it is written: a zigzag varint.
pub open spec fn number(value: i32) -> Seq<u8> {
    vlq::varint_bytes(vlq::zigzag_code(value))
}

/// What changes from one mapping to the next. On a new line the column counts from its start.
pub struct Difference {
    pub line: i32,
    pub column: i32,
    pub source: i32,
    pub original_line: i32,
    pub original_column: i32,
}

/// The difference between two mappings, in 32 bits.
pub open spec fn difference(from: MapState, to: MapState) -> Difference {
    let line = mappings::delta(to.generated_line, from.generated_line);
    Difference {
        line,
        column: if line != 0 {
            to.generated_column
        } else {
            mappings::delta(to.generated_column, from.generated_column)
        },
        source: mappings::delta(to.source_index, from.source_index),
        original_line: mappings::delta(to.original_line, from.original_line),
        original_column: mappings::delta(to.original_column, from.original_column),
    }
}

/// The difference that leads to the mapping behind this one.
pub open spec fn difference_at(states: Seq<MapState>, k: int) -> Difference {
    difference(states[k], states[k + 1])
}

/// The lane of columns: every difference has one.
pub open spec fn column_piece(states: Seq<MapState>) -> spec_fn(int) -> Seq<u8> {
    |k: int| number(difference_at(states, k).column)
}

/// The lane of original lines: those that change otherwise than the line does.
pub open spec fn line_piece(states: Seq<MapState>) -> spec_fn(int) -> Seq<u8> {
    |k: int|
        if difference_at(states, k).original_line == difference_at(states, k).line {
            Seq::empty()
        } else {
            number(difference_at(states, k).original_line)
        }
}

/// The lane of original columns: those that change otherwise than the column does.
pub open spec fn original_column_piece(states: Seq<MapState>) -> spec_fn(int) -> Seq<u8> {
    |k: int|
        if difference_at(states, k).original_column == difference_at(states, k).column {
            Seq::empty()
        } else {
            number(difference_at(states, k).original_column)
        }
}

/// Whether the line mask tells this line difference.
pub open spec fn is_plain_line(line: i32) -> bool {
    line == 0 || line == 1
}

/// The list of line exceptions: those that the line mask cannot tell, each with its index.
pub open spec fn exception_piece(states: Seq<MapState>) -> spec_fn(int) -> Seq<u8> {
    |k: int|
        if is_plain_line(difference_at(states, k).line) {
            Seq::empty()
        } else {
            seq![k as u8] + number(difference_at(states, k).line)
        }
}

/// The lane of sources: those that change.
pub open spec fn source_piece(states: Seq<MapState>) -> spec_fn(int) -> Seq<u8> {
    |k: int|
        if difference_at(states, k).source == 0 {
            Seq::empty()
        } else {
            number(difference_at(states, k).source)
        }
}

/// The flags of a window.
pub open spec fn window_flags(exceptions: bool, sources: bool) -> u8 {
    if exceptions && sources {
        12
    } else if exceptions {
        4
    } else if sources {
        8
    } else {
        0
    }
}

/// The first eight bytes of a window: how many mappings it holds, its flags, and the lengths of
/// the first three lanes.
pub open spec fn window_head(states: Seq<MapState>, exceptions: bool, sources: bool) -> Seq<u8> {
    let count = states.len() - 1;
    seq![states.len() as u8, window_flags(exceptions, sources)] + bytes::le_bytes(
        lane(column_piece(states), count).len(),
        2,
    ) + bytes::le_bytes(lane(line_piece(states), count).len(), 2) + bytes::le_bytes(
        lane(original_column_piece(states), count).len(),
        2,
    )
}

/// The three masks of a window: where the line goes up by one, where the original line changes
/// as the line does, and where the original column changes as the column does.
pub open spec fn window_masks(states: Seq<MapState>) -> Seq<u8> {
    mask_bytes(line_bit(states)) + mask_bytes(same_line_bit(states)) + mask_bytes(
        same_column_bit(states),
    )
}

pub open spec fn line_bit(states: Seq<MapState>) -> spec_fn(int) -> bool {
    |k: int| k + 1 < states.len() && difference_at(states, k).line == 1
}

pub open spec fn same_line_bit(states: Seq<MapState>) -> spec_fn(int) -> bool {
    |k: int|
        k + 1 < states.len() && difference_at(states, k).original_line == difference_at(
            states,
            k,
        ).line
}

pub open spec fn same_column_bit(states: Seq<MapState>) -> spec_fn(int) -> bool {
    |k: int|
        k + 1 < states.len() && difference_at(states, k).original_column == difference_at(
            states,
            k,
        ).column
}

pub open spec fn same_source_bit(states: Seq<MapState>) -> spec_fn(int) -> bool {
    |k: int| k + 1 < states.len() && difference_at(states, k).source == 0
}

/// The list of line exceptions with its terminator, if the window has one.
pub open spec fn window_exceptions(states: Seq<MapState>, exceptions: bool) -> Seq<u8> {
    if exceptions {
        lane(exception_piece(states), states.len() - 1).push(0xFF)
    } else {
        Seq::empty()
    }
}

/// The source mask and the lane of sources, if the window has one.
pub open spec fn window_sources(states: Seq<MapState>, sources: bool) -> Seq<u8> {
    if sources {
        mask_bytes(same_source_bit(states)) + lane(source_piece(states), states.len() - 1)
    } else {
        Seq::empty()
    }
}

/// A window that holds these mappings, the first of which its sync entry tells.
pub open spec fn window_bytes(states: Seq<MapState>, exceptions: bool, sources: bool) -> Seq<u8> {
    let count = states.len() - 1;
    window_head(states, exceptions, sources) + window_masks(states) + lane(
        column_piece(states),
        count,
    ) + lane(line_piece(states), count) + lane(original_column_piece(states), count)
        + window_exceptions(states, exceptions) + window_sources(states, sources)
}

/// Whether a window can hold these mappings: it has room for them, and has the lanes that their
/// differences need.
pub open spec fn fits_window(states: Seq<MapState>, exceptions: bool, sources: bool) -> bool {
    &&& 1 <= states.len() <= internal_map::SYNC_INTERVAL
    &&& exceptions || forall|k: int|
        0 <= k < states.len() - 1 ==> is_plain_line(#[trigger] difference_at(states, k).line)
    &&& sources || forall|k: int|
        0 <= k < states.len() - 1 ==> #[trigger] difference_at(states, k).source == 0
}

/// Where two texts lie in the bytes one behind the other, each lies there by itself.
proof fn lemma_halves(bytes: Seq<u8>, start: int, a: Seq<u8>, b: Seq<u8>)
    requires
        0 <= start,
        start + (a + b).len() <= bytes.len(),
        bytes.subrange(start, start + (a + b).len()) == a + b,
    ensures
        (a + b).len() == a.len() + b.len(),
        bytes.subrange(start, start + a.len()) == a,
        bytes.subrange(start + a.len(), start + a.len() + b.len()) == b,
{
    let whole = bytes.subrange(start, start + (a + b).len());
    assert(bytes.subrange(start, start + a.len()) =~= whole.subrange(0, a.len() as int));
    assert(whole.subrange(0, a.len() as int) =~= a);
    assert(bytes.subrange(start + a.len(), start + a.len() + b.len()) =~= whole.subrange(
        a.len() as int,
        (a.len() + b.len()) as int,
    ));
    assert(whole.subrange(a.len() as int, (a.len() + b.len()) as int) =~= b);
}

/// Where the lanes of a window lie.
pub struct Places {
    pub columns: int,
    pub lines: int,
    pub original_columns: int,
    pub exceptions: int,
    pub sources: int,
    pub end: int,
}

/// Where the lanes of a window at `start` lie.
pub open spec fn places(start: int, states: Seq<MapState>, exceptions: bool, sources: bool) -> Places {
    let count = states.len() - 1;
    let columns = start + 32;
    let lines = columns + lane(column_piece(states), count).len();
    let original_columns = lines + lane(line_piece(states), count).len();
    let list = original_columns + lane(original_column_piece(states), count).len();
    let after = list + window_exceptions(states, exceptions).len();
    Places {
        columns,
        lines,
        original_columns,
        exceptions: list,
        sources: after,
        end: after + window_sources(states, sources).len(),
    }
}

/// A number has one to five bytes.
proof fn lemma_number_length(value: i32)
    ensures
        1 <= number(value).len() <= 5,
{
    vlq::zigzag_round_trip(value);
    reveal_with_fuel(vlq::varint_bytes, 6);
}

/// A lane of numbers has at most six bytes for each.
proof fn lemma_lane_length(piece: spec_fn(int) -> Seq<u8>, count: int)
    requires
        0 <= count,
        forall|k: int| 0 <= k < count ==> (#[trigger] piece(k)).len() <= 6,
    ensures
        lane(piece, count).len() <= 6 * count,
    decreases count,
{
    if count > 0 {
        lemma_lane_length(piece, count - 1);
        assert(piece(count - 1).len() <= 6);
    }
}

proof fn lemma_lengths(states: Seq<MapState>)
    requires
        1 <= states.len() <= internal_map::SYNC_INTERVAL,
    ensures
        lane(column_piece(states), states.len() - 1).len() <= 6 * 64,
        lane(line_piece(states), states.len() - 1).len() <= 6 * 64,
        lane(original_column_piece(states), states.len() - 1).len() <= 6 * 64,
        lane(exception_piece(states), states.len() - 1).len() <= 6 * 64,
        lane(source_piece(states), states.len() - 1).len() <= 6 * 64,
{
    let count = states.len() - 1;
    assert forall|k: int| 0 <= k < count implies (#[trigger] column_piece(states)(k)).len() <= 6 by {
        lemma_number_length(difference_at(states, k).column);
    }
    lemma_lane_length(column_piece(states), count);
    assert forall|k: int| 0 <= k < count implies (#[trigger] line_piece(states)(k)).len() <= 6 by {
        lemma_number_length(difference_at(states, k).original_line);
    }
    lemma_lane_length(line_piece(states), count);
    assert forall|k: int| 0 <= k < count implies (#[trigger] original_column_piece(states)(k)).len()
        <= 6 by {
        lemma_number_length(difference_at(states, k).original_column);
    }
    lemma_lane_length(original_column_piece(states), count);
    assert forall|k: int| 0 <= k < count implies (#[trigger] exception_piece(states)(k)).len()
        <= 6 by {
        lemma_number_length(difference_at(states, k).line);
    }
    lemma_lane_length(exception_piece(states), count);
    assert forall|k: int| 0 <= k < count implies (#[trigger] source_piece(states)(k)).len() <= 6 by {
        lemma_number_length(difference_at(states, k).source);
    }
    lemma_lane_length(source_piece(states), count);
}

/// Whether the bytes hold the window at `start`, part by part.
spec fn holds_window(
    bytes: Seq<u8>,
    start: int,
    states: Seq<MapState>,
    exceptions: bool,
    sources: bool,
) -> bool {
    let at = places(start, states, exceptions, sources);
    let count = states.len() - 1;
    &&& 0 <= start
    &&& at.end <= bytes.len()
    &&& bytes.subrange(start, start + 8) == window_head(states, exceptions, sources)
    &&& bytes.subrange(start + 8, start + 16) == mask_bytes(line_bit(states))
    &&& bytes.subrange(start + 16, start + 24) == mask_bytes(same_line_bit(states))
    &&& bytes.subrange(start + 24, start + 32) == mask_bytes(same_column_bit(states))
    &&& bytes.subrange(at.columns, at.lines) == lane(column_piece(states), count)
    &&& bytes.subrange(at.lines, at.original_columns) == lane(line_piece(states), count)
    &&& bytes.subrange(at.original_columns, at.exceptions) == lane(
        original_column_piece(states),
        count,
    )
    &&& bytes.subrange(at.exceptions, at.sources) == window_exceptions(states, exceptions)
    &&& bytes.subrange(at.sources, at.end) == window_sources(states, sources)
}

proof fn lemma_holds_window(
    bytes: Seq<u8>,
    start: int,
    states: Seq<MapState>,
    exceptions: bool,
    sources: bool,
)
    requires
        fits_window(states, exceptions, sources),
        0 <= start,
        start + window_bytes(states, exceptions, sources).len() <= bytes.len(),
        bytes.subrange(start, start + window_bytes(states, exceptions, sources).len())
            == window_bytes(states, exceptions, sources),
    ensures
        window_bytes(states, exceptions, sources).len() == places(
            start,
            states,
            exceptions,
            sources,
        ).end - start,
        holds_window(bytes, start, states, exceptions, sources),
{
    let count = states.len() - 1;
    let head = window_head(states, exceptions, sources);
    let mask1 = mask_bytes(line_bit(states));
    let mask2 = mask_bytes(same_line_bit(states));
    let mask3 = mask_bytes(same_column_bit(states));
    let columns = lane(column_piece(states), count);
    let lines = lane(line_piece(states), count);
    let original_columns = lane(original_column_piece(states), count);
    let list = window_exceptions(states, exceptions);
    let tail = window_sources(states, sources);
    let none = Seq::<u8>::empty();
    lemma_lengths(states);
    reveal_with_fuel(bytes::le_bound, 3);
    bytes::le_round_trip(none, columns.len(), 2, none);
    bytes::le_round_trip(none, lines.len(), 2, none);
    bytes::le_round_trip(none, original_columns.len(), 2, none);
    assert(head.len() == 8);
    let masks = mask1 + mask2 + mask3;
    lemma_halves(
        bytes,
        start,
        head + masks + columns + lines + original_columns + list,
        tail,
    );
    lemma_halves(bytes, start, head + masks + columns + lines + original_columns, list);
    lemma_halves(bytes, start, head + masks + columns + lines, original_columns);
    lemma_halves(bytes, start, head + masks + columns, lines);
    lemma_halves(bytes, start, head + masks, columns);
    lemma_halves(bytes, start, head, masks);
    lemma_halves(bytes, start + 8, mask1 + mask2, mask3);
    lemma_halves(bytes, start + 8, mask1, mask2);
}

/// The window at `start` when the mapping with this index has been read.
spec fn window_after(
    bytes: Seq<u8>,
    start: int,
    states: Seq<MapState>,
    exceptions: bool,
    sources: bool,
    k: int,
) -> Window {
    let at = places(start, states, exceptions, sources);
    let exception = at.exceptions + lane(exception_piece(states), k).len();
    Window {
        base: start,
        gen_col_pos: at.columns + lane(column_piece(states), k).len(),
        orig_line_exc_pos: at.lines + lane(line_piece(states), k).len(),
        orig_col_exc_pos: at.original_columns + lane(original_column_piece(states), k).len(),
        gen_line_exc_pos: if exceptions {
            exception
        } else {
            at.exceptions
        },
        src_idx_mask_pos: if sources {
            at.sources
        } else {
            0
        },
        src_idx_exc_pos: if sources {
            at.sources + 8 + lane(source_piece(states), k).len()
        } else {
            at.sources
        },
        count: states.len() as int,
        flags: window_flags(exceptions, sources),
        gen_line_exc_next_idx: if exceptions {
            bytes[exception]
        } else {
            0xFF
        },
        delta_idx: k,
    }
}

/// The list of exceptions lies in the bytes, and its terminator behind it.
proof fn lemma_exceptions_in_bytes(
    bytes: Seq<u8>,
    start: int,
    states: Seq<MapState>,
    sources: bool,
)
    requires
        1 <= states.len() <= internal_map::SYNC_INTERVAL,
        holds_window(bytes, start, states, true, sources),
    ensures
        ({
            let from = places(start, states, true, sources).exceptions;
            let list = lane(exception_piece(states), states.len() - 1);
            &&& from + list.len() < bytes.len()
            &&& bytes.subrange(from, from + list.len()) == list
            &&& bytes[from + list.len()] == 0xFF
        }),
{
    let at = places(start, states, true, sources);
    let list = lane(exception_piece(states), states.len() - 1);
    assert(list.push(0xFF) =~= list + seq![0xFFu8]);
    lemma_halves(bytes, at.exceptions, list, seq![0xFFu8]);
    assert(bytes.subrange(
        at.exceptions + list.len(),
        at.exceptions + list.len() + 1,
    )[0] == bytes[at.exceptions + list.len()]);
}

/// The exception of a difference lies where the list stands when the difference comes.
proof fn lemma_exception_entry(
    bytes: Seq<u8>,
    start: int,
    states: Seq<MapState>,
    sources: bool,
    k: int,
)
    requires
        1 <= states.len() <= internal_map::SYNC_INTERVAL,
        holds_window(bytes, start, states, true, sources),
        0 <= k < states.len() - 1,
        !is_plain_line(difference_at(states, k).line),
    ensures
        ({
            let from = places(start, states, true, sources).exceptions;
            let here = from + lane(exception_piece(states), k).len();
            let next = from + lane(exception_piece(states), k + 1).len();
            &&& bytes[here] == k
            &&& next < bytes.len()
            &&& vlq::varint_at(bytes, here + 1) == Ok::<(i32, int), Failure>(
                (difference_at(states, k).line, next),
            )
        }),
{
    let from = places(start, states, true, sources).exceptions;
    let piece = exception_piece(states);
    let count = states.len() - 1;
    let here = from + lane(piece, k).len();
    let next = from + lane(piece, k + 1).len();
    let line = difference_at(states, k).line;
    lemma_exceptions_in_bytes(bytes, start, states, sources);
    lemma_piece_in_bytes(bytes, from, piece, k, count);
    assert(piece(k) == seq![k as u8] + number(line));
    lemma_halves(bytes, here, seq![k as u8], number(line));
    assert(bytes.subrange(here, here + 1)[0] == bytes[here]);
    vlq::lemma_varint_at(bytes, here + 1, line);
}

/// The end of the list of exceptions is found from every entry.
proof fn lemma_exceptions_end(
    bytes: Seq<u8>,
    start: int,
    states: Seq<MapState>,
    sources: bool,
    k: int,
)
    requires
        1 <= states.len() <= internal_map::SYNC_INTERVAL,
        holds_window(bytes, start, states, true, sources),
        0 <= k <= states.len() - 1,
    ensures
        ({
            let at = places(start, states, true, sources);
            let here = at.exceptions + lane(exception_piece(states), k).len();
            &&& internal_map::line_exceptions_end(bytes, here) == Ok::<int, Failure>(
                at.sources - 1,
            )
            &&& here < bytes.len()
            &&& bytes[here] == 0xFF || k <= bytes[here] < states.len() - 1
        }),
    decreases states.len() - k,
{
    let at = places(start, states, true, sources);
    let piece = exception_piece(states);
    let count = states.len() - 1;
    lemma_exceptions_in_bytes(bytes, start, states, sources);
    if k < count {
        lemma_exceptions_end(bytes, start, states, sources, k + 1);
        lemma_lane_piece(piece, k, count);
        if !is_plain_line(difference_at(states, k).line) {
            lemma_exception_entry(bytes, start, states, sources, k);
        }
    }
}

/// The bits of the flags.
proof fn lemma_flags(exceptions: bool, sources: bool)
    ensures
        (window_flags(exceptions, sources) & FLAG_HAS_GEN_LINE_EXCEPTIONS != 0) == exceptions,
        (window_flags(exceptions, sources) & FLAG_HAS_SRC_IDX != 0) == sources,
{
    assert(12u8 & 4 != 0 && 12u8 & 8 != 0 && 4u8 & 4 != 0 && 4u8 & 8 == 0 && 8u8 & 4 == 0 && 8u8 & 8
        != 0 && 0u8 & 4 == 0 && 0u8 & 8 == 0) by (bit_vector);
}

/// The header of a window is read back.
proof fn lemma_window_at(
    bytes: Seq<u8>,
    start: int,
    states: Seq<MapState>,
    exceptions: bool,
    sources: bool,
)
    requires
        fits_window(states, exceptions, sources),
        holds_window(bytes, start, states, exceptions, sources),
        bytes.len() <= usize::MAX,
    ensures
        internal_map::window_at(bytes, start) == Ok::<Window, Failure>(
            window_after(bytes, start, states, exceptions, sources, 0),
        ),
{
    let at = places(start, states, exceptions, sources);
    let count = states.len() - 1;
    let head = window_head(states, exceptions, sources);
    let columns = lane(column_piece(states), count);
    let lines = lane(line_piece(states), count);
    let original_columns = lane(original_column_piece(states), count);
    let lead = seq![states.len() as u8, window_flags(exceptions, sources)];
    let a = bytes::le_bytes(columns.len(), 2);
    let b = bytes::le_bytes(lines.len(), 2);
    let c = bytes::le_bytes(original_columns.len(), 2);
    lemma_lengths(states);
    lemma_flags(exceptions, sources);
    reveal_with_fuel(bytes::le_bound, 3);
    bytes::le_round_trip(lead, columns.len(), 2, b + c);
    bytes::le_round_trip(lead + a, lines.len(), 2, c);
    bytes::le_round_trip(lead + a + b, original_columns.len(), 2, Seq::empty());
    assert(lead + a + (b + c) =~= head);
    assert(lead + a + b + c + Seq::<u8>::empty() =~= head);
    assert forall|i: int| 0 <= i < 8 implies #[trigger] bytes[start + i] == head[i] by {
        assert(bytes.subrange(start, start + 8)[i] == bytes[start + i]);
    }
    assert(bytes[start + 0] == head[0] && bytes[start + 1] == head[1]);
    assert forall|i: int| 0 <= i < 2 implies #[trigger] bytes[start + 2 + i] == head[2 + i] by {
        assert(bytes[start + (2 + i)] == head[2 + i]);
    }
    assert forall|i: int| 0 <= i < 2 implies #[trigger] bytes[start + 4 + i] == head[4 + i] by {
        assert(bytes[start + (4 + i)] == head[4 + i]);
    }
    assert forall|i: int| 0 <= i < 2 implies #[trigger] bytes[start + 6 + i] == head[6 + i] by {
        assert(bytes[start + (6 + i)] == head[6 + i]);
    }
    bytes::lemma_le_at_same(bytes, head, start + 2, 2, 2);
    bytes::lemma_le_at_same(bytes, head, start + 4, 4, 2);
    bytes::lemma_le_at_same(bytes, head, start + 6, 6, 2);
    if exceptions {
        lemma_exceptions_end(bytes, start, states, sources, 0);
    }
}

/// Adding a difference undoes taking it.
proof fn lemma_sum_of_delta(value: i32, base: i32)
    ensures
        internal_map::sum(base, mappings::delta(value, base)) == value,
{
}

/// A number in a lane is read where the lane stands when its difference comes; a difference
/// without a number in the lane leaves the lane where it stands.
proof fn lemma_lane_number(
    bytes: Seq<u8>,
    base: int,
    piece: spec_fn(int) -> Seq<u8>,
    k: int,
    count: int,
    present: bool,
    value: i32,
)
    requires
        0 <= k < count,
        0 <= base,
        base + lane(piece, count).len() <= bytes.len(),
        bytes.subrange(base, base + lane(piece, count).len()) == lane(piece, count),
        piece(k) == (if present {
            number(value)
        } else {
            Seq::empty()
        }),
    ensures
        internal_map::optional_varint(bytes, base + lane(piece, k).len(), present) == Ok::<
            (i32, int),
            Failure,
        >(
            (
                if present {
                    value
                } else {
                    0
                },
                base + lane(piece, k + 1).len(),
            ),
        ),
{
    lemma_piece_in_bytes(bytes, base, piece, k, count);
    if present {
        vlq::lemma_varint_at(bytes, base + lane(piece, k).len(), value);
    }
}

/// The source lane of a window lies in the bytes, behind its mask.
proof fn lemma_sources_in_bytes(
    bytes: Seq<u8>,
    start: int,
    states: Seq<MapState>,
    exceptions: bool,
)
    requires
        holds_window(bytes, start, states, exceptions, true),
    ensures
        ({
            let at = places(start, states, exceptions, true);
            let list = lane(source_piece(states), states.len() - 1);
            &&& at.sources + 8 + list.len() == at.end
            &&& bytes.subrange(at.sources, at.sources + 8) == mask_bytes(same_source_bit(states))
            &&& bytes.subrange(at.sources + 8, at.end) == list
        }),
{
    let at = places(start, states, exceptions, true);
    lemma_halves(
        bytes,
        at.sources,
        mask_bytes(same_source_bit(states)),
        lane(source_piece(states), states.len() - 1),
    );
}

/// Each difference of a window leads to the next mapping.
proof fn lemma_step(
    bytes: Seq<u8>,
    start: int,
    states: Seq<MapState>,
    exceptions: bool,
    sources: bool,
    k: int,
)
    requires
        fits_window(states, exceptions, sources),
        holds_window(bytes, start, states, exceptions, sources),
        0 <= k < states.len() - 1,
    ensures
        internal_map::step(
            bytes,
            window_after(bytes, start, states, exceptions, sources, k),
            states[k],
        ) == Ok::<(Window, MapState), Failure>(
            (window_after(bytes, start, states, exceptions, sources, k + 1), states[k + 1]),
        ),
{
    let at = places(start, states, exceptions, sources);
    let count = states.len() - 1;
    let d = difference_at(states, k);
    let from = states[k];
    let to = states[k + 1];
    lemma_mask_bit(bytes, start + 8, line_bit(states), k);
    lemma_mask_bit(bytes, start + 16, same_line_bit(states), k);
    lemma_mask_bit(bytes, start + 24, same_column_bit(states), k);
    lemma_flags(exceptions, sources);
    lemma_lane_number(bytes, at.columns, column_piece(states), k, count, true, d.column);
    lemma_lane_number(
        bytes,
        at.lines,
        line_piece(states),
        k,
        count,
        d.original_line != d.line,
        d.original_line,
    );
    lemma_lane_number(
        bytes,
        at.original_columns,
        original_column_piece(states),
        k,
        count,
        d.original_column != d.column,
        d.original_column,
    );
    if exceptions {
        lemma_exceptions_end(bytes, start, states, sources, k);
        lemma_lane_piece(exception_piece(states), k, count);
        if is_plain_line(d.line) {
            lemma_exceptions_end(bytes, start, states, sources, k + 1);
        } else {
            lemma_exception_entry(bytes, start, states, sources, k);
        }
    } else {
        assert(is_plain_line(difference_at(states, k).line));
    }
    if sources {
        lemma_sources_in_bytes(bytes, start, states, exceptions);
        lemma_mask_bit(bytes, at.sources, same_source_bit(states), k);
        lemma_lane_number(
            bytes,
            at.sources + 8,
            source_piece(states),
            k,
            count,
            d.source != 0,
            d.source,
        );
    } else {
        assert(difference_at(states, k).source == 0);
    }
    lemma_sum_of_delta(to.generated_line, from.generated_line);
    lemma_sum_of_delta(to.generated_column, from.generated_column);
    lemma_sum_of_delta(to.source_index, from.source_index);
    lemma_sum_of_delta(to.original_line, from.original_line);
    lemma_sum_of_delta(to.original_column, from.original_column);
}

/// The differences of a window lead to all mappings behind the one that has been read.
proof fn lemma_rest_of_window(
    bytes: Seq<u8>,
    start: int,
    states: Seq<MapState>,
    exceptions: bool,
    sources: bool,
    k: int,
)
    requires
        fits_window(states, exceptions, sources),
        holds_window(bytes, start, states, exceptions, sources),
        0 <= k < states.len(),
    ensures
        internal_map::rest_of_window(
            bytes,
            window_after(bytes, start, states, exceptions, sources, k),
            states[k],
        ) == Ok::<Seq<MapState>, Failure>(states.skip(k + 1)),
    decreases states.len() - k,
{
    if k + 1 < states.len() {
        lemma_step(bytes, start, states, exceptions, sources, k);
        lemma_rest_of_window(bytes, start, states, exceptions, sources, k + 1);
        assert(states.skip(k + 1) =~= seq![states[k + 1]] + states.skip(k + 2));
    } else {
        assert(states.skip(k + 1) =~= Seq::empty());
    }
}

/// A window that was written is read back: its differences lead from the first of its mappings
/// to all the others, wherever in the stream the window lies.
pub proof fn window_round_trip(
    before: Seq<u8>,
    states: Seq<MapState>,
    exceptions: bool,
    sources: bool,
    after: Seq<u8>,
)
    requires
        fits_window(states, exceptions, sources),
        (before + window_bytes(states, exceptions, sources) + after).len() <= usize::MAX,
    ensures
        ({
            let stream = before + window_bytes(states, exceptions, sources) + after;
            internal_map::window_at(stream, before.len() as int) matches Ok(window)
                && internal_map::rest_of_window(stream, window, states[0]) == Ok::<
                Seq<MapState>,
                Failure,
            >(states.skip(1))
        }),
{
    let own = window_bytes(states, exceptions, sources);
    let stream = before + own + after;
    let start = before.len() as int;
    assert(stream.subrange(start, start + own.len()) =~= own);
    lemma_holds_window(stream, start, states, exceptions, sources);
    lemma_window_at(stream, start, states, exceptions, sources);
    lemma_rest_of_window(stream, start, states, exceptions, sources, 0);
}

/// The mappings of one window, and which of the optional lanes it has.
pub struct EncodedWindow {
    pub states: Seq<MapState>,
    pub exceptions: bool,
    pub sources: bool,
}

/// The 32-bit word that holds a signed number in two's complement.
pub open spec fn word(value: i32) -> nat {
    if value >= 0 {
        value as nat
    } else {
        (value + 0x1_0000_0000) as nat
    }
}

/// The windows, one behind the other.
pub open spec fn window_piece(windows: Seq<EncodedWindow>) -> spec_fn(int) -> Seq<u8> {
    |i: int| window_bytes(windows[i].states, windows[i].exceptions, windows[i].sources)
}

/// A sync entry: the first mapping of a window, and where in the stream the window lies.
pub open spec fn entry_bytes(first: MapState, byte_offset: nat) -> Seq<u8> {
    bytes::le_bytes(word(first.generated_line), 4) + bytes::le_bytes(
        word(first.generated_column),
        4,
    ) + bytes::le_bytes(byte_offset, 4) + bytes::le_bytes(word(first.original_line), 4)
        + bytes::le_bytes(word(first.original_column), 4) + bytes::le_bytes(
        word(first.source_index),
        4,
    )
}

/// The sync table: an entry for each window.
pub open spec fn entry_piece(windows: Seq<EncodedWindow>) -> spec_fn(int) -> Seq<u8> {
    |i: int| entry_bytes(windows[i].states[0], lane(window_piece(windows), i).len())
}

/// The stream of a map: its windows and a byte behind them.
pub open spec fn stream_bytes(windows: Seq<EncodedWindow>) -> Seq<u8> {
    lane(window_piece(windows), windows.len() as int).push(0)
}

/// The header of a map. The 16 bytes in `reserved` have no meaning for the mappings.
pub open spec fn header_bytes(windows: Seq<EncodedWindow>, reserved: Seq<u8>) -> Seq<u8> {
    let stream_offset = 32 + 24 * windows.len();
    bytes::le_bytes(stream_offset + stream_bytes(windows).len(), 8) + reserved + bytes::le_bytes(
        windows.len(),
        4,
    ) + bytes::le_bytes(stream_offset, 4)
}

/// A map with these windows.
pub open spec fn map_bytes(windows: Seq<EncodedWindow>, reserved: Seq<u8>) -> Seq<u8> {
    header_bytes(windows, reserved) + lane(entry_piece(windows), windows.len() as int)
        + stream_bytes(windows)
}

/// All mappings of the first `count` windows.
pub open spec fn all_states(windows: Seq<EncodedWindow>, count: int) -> Seq<MapState>
    decreases count,
{
    if count <= 0 {
        Seq::empty()
    } else {
        all_states(windows, count - 1) + windows[count - 1].states
    }
}

/// Whether a map can hold these windows: each fits its mappings, and positions fit their fields.
pub open spec fn fits_map(windows: Seq<EncodedWindow>, reserved: Seq<u8>) -> bool {
    &&& reserved.len() == 16
    &&& 32 + 24 * windows.len() <= u32::MAX
    &&& stream_bytes(windows).len() <= u32::MAX
    &&& 32 + 24 * windows.len() + stream_bytes(windows).len() <= usize::MAX
    &&& forall|i: int|
        #![trigger windows[i]]
        0 <= i < windows.len() ==> fits_window(
            windows[i].states,
            windows[i].exceptions,
            windows[i].sources,
        )
}

/// A word holds its number.
proof fn lemma_word(value: i32)
    ensures
        word(value) < 0x1_0000_0000,
        internal_map::signed(word(value)) == value,
{
}

/// A sync entry has 24 bytes and is read back.
proof fn lemma_entry(blob: Seq<u8>, at: int, first: MapState, byte_offset: nat)
    requires
        0 <= at,
        at + entry_bytes(first, byte_offset).len() <= blob.len(),
        byte_offset <= u32::MAX,
        blob.subrange(at, at + entry_bytes(first, byte_offset).len()) == entry_bytes(
            first,
            byte_offset,
        ),
    ensures
        entry_bytes(first, byte_offset).len() == 24,
        internal_map::signed(bytes::le_at(blob, at, 4)) == first.generated_line,
        internal_map::signed(bytes::le_at(blob, at + 4, 4)) == first.generated_column,
        bytes::le_at(blob, at + 8, 4) == byte_offset,
        internal_map::signed(bytes::le_at(blob, at + 12, 4)) == first.original_line,
        internal_map::signed(bytes::le_at(blob, at + 16, 4)) == first.original_column,
        internal_map::signed(bytes::le_at(blob, at + 20, 4)) == first.source_index,
{
    let a = word(first.generated_line);
    let b = word(first.generated_column);
    let d = word(first.original_line);
    let e = word(first.original_column);
    let f = word(first.source_index);
    lemma_word(first.generated_line);
    lemma_word(first.generated_column);
    lemma_word(first.original_line);
    lemma_word(first.original_column);
    lemma_word(first.source_index);
    reveal_with_fuel(bytes::le_bound, 5);
    lemma_six_words(blob, at, a, b, byte_offset, d, e, f);
}

/// Six words in a row are read back.
proof fn lemma_six_words(
    blob: Seq<u8>,
    at: int,
    a: nat,
    b: nat,
    c: nat,
    d: nat,
    e: nat,
    f: nat,
)
    requires
        a < bytes::le_bound(4),
        b < bytes::le_bound(4),
        c < bytes::le_bound(4),
        d < bytes::le_bound(4),
        e < bytes::le_bound(4),
        f < bytes::le_bound(4),
        0 <= at,
        ({
            let own = bytes::le_bytes(a, 4) + bytes::le_bytes(b, 4) + bytes::le_bytes(c, 4)
                + bytes::le_bytes(d, 4) + bytes::le_bytes(e, 4) + bytes::le_bytes(f, 4);
            at + own.len() <= blob.len() && blob.subrange(at, at + own.len()) == own
        }),
    ensures
        (bytes::le_bytes(a, 4) + bytes::le_bytes(b, 4) + bytes::le_bytes(c, 4) + bytes::le_bytes(
            d,
            4,
        ) + bytes::le_bytes(e, 4) + bytes::le_bytes(f, 4)).len() == 24,
        bytes::le_at(blob, at, 4) == a,
        bytes::le_at(blob, at + 4, 4) == b,
        bytes::le_at(blob, at + 8, 4) == c,
        bytes::le_at(blob, at + 12, 4) == d,
        bytes::le_at(blob, at + 16, 4) == e,
        bytes::le_at(blob, at + 20, 4) == f,
{
    let (wa, wb, wc) = (bytes::le_bytes(a, 4), bytes::le_bytes(b, 4), bytes::le_bytes(c, 4));
    let (wd, we, wf) = (bytes::le_bytes(d, 4), bytes::le_bytes(e, 4), bytes::le_bytes(f, 4));
    lemma_word_length(a);
    lemma_word_length(b);
    lemma_word_length(c);
    lemma_word_length(d);
    lemma_word_length(e);
    lemma_word_length(f);
    lemma_halves(blob, at, wa + wb + wc + wd + we, wf);
    lemma_halves(blob, at, wa + wb + wc + wd, we);
    lemma_halves(blob, at, wa + wb + wc, wd);
    lemma_halves(blob, at, wa + wb, wc);
    lemma_halves(blob, at, wa, wb);
    lemma_number_in_bytes(blob, at, a, 4);
    lemma_number_in_bytes(blob, at + 4, b, 4);
    lemma_number_in_bytes(blob, at + 8, c, 4);
    lemma_number_in_bytes(blob, at + 12, d, 4);
    lemma_number_in_bytes(blob, at + 16, e, 4);
    lemma_number_in_bytes(blob, at + 20, f, 4);
}

proof fn lemma_word_length(value: nat)
    requires
        value < bytes::le_bound(4),
    ensures
        bytes::le_bytes(value, 4).len() == 4,
{
    bytes::le_round_trip(Seq::empty(), value, 4, Seq::empty());
}

/// A number that lies in the bytes is read there.
proof fn lemma_number_in_bytes(bytes: Seq<u8>, at: int, value: nat, width: nat)
    requires
        0 <= at,
        at + width <= bytes.len(),
        value < bytes::le_bound(width),
        bytes.subrange(at, at + width) == bytes::le_bytes(value, width),
    ensures
        bytes::le_at(bytes, at, width) == value,
{
    let before = bytes.take(at);
    let after = bytes.skip(at + width);
    bytes::le_round_trip(before, value, width, after);
    assert(before + bytes::le_bytes(value, width) + after =~= bytes);
}

/// The sync table has 24 bytes for each window.
proof fn lemma_table_length(windows: Seq<EncodedWindow>, count: int)
    requires
        0 <= count,
    ensures
        lane(entry_piece(windows), count).len() == 24 * count,
    decreases count,
{
    if count > 0 {
        lemma_table_length(windows, count - 1);
        let first = windows[count - 1].states[0];
        lemma_le_bytes_length(word(first.generated_line), 4);
        lemma_le_bytes_length(word(first.generated_column), 4);
        lemma_le_bytes_length(lane(window_piece(windows), count - 1).len(), 4);
        lemma_le_bytes_length(word(first.original_line), 4);
        lemma_le_bytes_length(word(first.original_column), 4);
        lemma_le_bytes_length(word(first.source_index), 4);
    }
}

proof fn lemma_le_bytes_length(value: nat, width: nat)
    ensures
        bytes::le_bytes(value, width).len() == width,
    decreases width,
{
    if width > 0 {
        lemma_le_bytes_length(value / 256, (width - 1) as nat);
    }
}

/// The parts of a map lie in it one behind the other.
proof fn lemma_map_parts(windows: Seq<EncodedWindow>, reserved: Seq<u8>)
    requires
        fits_map(windows, reserved),
    ensures
        ({
            let blob = map_bytes(windows, reserved);
            let count = windows.len() as int;
            let table = lane(entry_piece(windows), count);
            let stream = stream_bytes(windows);
            &&& table.len() == 24 * count
            &&& blob.len() == 32 + 24 * count + stream.len()
            &&& blob.subrange(32, 32 + table.len() as int) == table
            &&& blob.subrange(32 + 24 * count, blob.len() as int) == stream
            &&& bytes::le_at(blob, 0, 8) == blob.len()
            &&& bytes::le_at(blob, 24, 4) == count
            &&& bytes::le_at(blob, 28, 4) == 32 + 24 * count
        }),
{
    let blob = map_bytes(windows, reserved);
    let count = windows.len();
    let stream_offset = 32 + 24 * count;
    let header = header_bytes(windows, reserved);
    let table = lane(entry_piece(windows), count as int);
    let stream = stream_bytes(windows);
    let total = (stream_offset + stream.len()) as nat;
    let a = bytes::le_bytes(total, 8);
    let c = bytes::le_bytes(count, 4);
    let d = bytes::le_bytes(stream_offset as nat, 4);
    lemma_table_length(windows, count as int);
    lemma_le_bytes_length(total, 8);
    lemma_le_bytes_length(count, 4);
    lemma_le_bytes_length(stream_offset as nat, 4);
    reveal_with_fuel(bytes::le_bound, 9);
    assert(blob.subrange(0, blob.len() as int) =~= blob);
    lemma_halves(blob, 0, header + table, stream);
    lemma_halves(blob, 0, header, table);
    lemma_halves(blob, 0, a + reserved + c, d);
    lemma_halves(blob, 0, a + reserved, c);
    lemma_halves(blob, 0, a, reserved);
    lemma_number_in_bytes(blob, 0, total, 8);
    lemma_number_in_bytes(blob, 24, count, 4);
    lemma_number_in_bytes(blob, 28, stream_offset as nat, 4);
}

/// The sync entry of a window is read back from a map.
proof fn lemma_sync_entry(windows: Seq<EncodedWindow>, reserved: Seq<u8>, index: int)
    requires
        fits_map(windows, reserved),
        0 <= index < windows.len(),
    ensures
        internal_map::sync_entry_at(map_bytes(windows, reserved), index) matches Ok(entry)
            && entry.mapping() == windows[index].states[0] && entry.byte_offset == lane(
            window_piece(windows),
            index,
        ).len(),
{
    let blob = map_bytes(windows, reserved);
    let count = windows.len() as int;
    let start = lane(window_piece(windows), index).len();
    lemma_map_parts(windows, reserved);
    lemma_table_length(windows, index);
    lemma_piece_in_bytes(blob, 32, entry_piece(windows), index, count);
    lemma_lane_prefix(window_piece(windows), index, count);
    lemma_entry(blob, 32 + 24 * index, windows[index].states[0], start);
}

/// A window is read back from the stream.
proof fn lemma_window_in_stream(windows: Seq<EncodedWindow>, reserved: Seq<u8>, index: int)
    requires
        fits_map(windows, reserved),
        0 <= index < windows.len(),
    ensures
        internal_map::window_at(
            stream_bytes(windows),
            lane(window_piece(windows), index).len() as int,
        ) matches Ok(window) && internal_map::rest_of_window(
            stream_bytes(windows),
            window,
            windows[index].states[0],
        ) == Ok::<Seq<MapState>, Failure>(windows[index].states.skip(1)),
{
    let stream = stream_bytes(windows);
    let count = windows.len() as int;
    let own = windows[index];
    let start = lane(window_piece(windows), index).len() as int;
    let all = lane(window_piece(windows), count);
    assert(stream.subrange(0, all.len() as int) =~= all);
    lemma_piece_in_bytes(stream, 0, window_piece(windows), index, count);
    assert(fits_window(own.states, own.exceptions, own.sources));
    lemma_holds_window(stream, start, own.states, own.exceptions, own.sources);
    lemma_window_at(stream, start, own.states, own.exceptions, own.sources);
    lemma_rest_of_window(stream, start, own.states, own.exceptions, own.sources, 0);
}

/// The mappings of one window are read back from a map.
#[verifier::rlimit(30)]
proof fn lemma_window_mappings(windows: Seq<EncodedWindow>, reserved: Seq<u8>, index: int)
    requires
        fits_map(windows, reserved),
        0 <= index < windows.len(),
    ensures
        internal_map::window_mappings(
            map_bytes(windows, reserved),
            stream_bytes(windows),
            index,
        ) == Ok::<Seq<MapState>, Failure>(windows[index].states),
{
    let states = windows[index].states;
    lemma_sync_entry(windows, reserved, index);
    lemma_window_in_stream(windows, reserved, index);
    assert(fits_window(states, windows[index].exceptions, windows[index].sources));
    assert(seq![states[0]] + states.skip(1) =~= states);
}

proof fn lemma_mappings_before(windows: Seq<EncodedWindow>, reserved: Seq<u8>, count: int)
    requires
        fits_map(windows, reserved),
        0 <= count <= windows.len(),
    ensures
        internal_map::mappings_before(
            map_bytes(windows, reserved),
            stream_bytes(windows),
            count,
        ) == Ok::<Seq<MapState>, Failure>(all_states(windows, count)),
    decreases count,
{
    if count > 0 {
        lemma_mappings_before(windows, reserved, count - 1);
        lemma_window_mappings(windows, reserved, count - 1);
    }
}

/// A map that was written is read back: decoding gives exactly the mappings of its windows, in
/// order.
pub proof fn map_round_trip(windows: Seq<EncodedWindow>, reserved: Seq<u8>)
    requires
        fits_map(windows, reserved),
    ensures
        ({
            let blob = map_bytes(windows, reserved);
            internal_map::layout_of(blob) matches Ok(layout) && internal_map::mappings_of(
                blob,
                layout,
            ) == Ok::<Seq<MapState>, Failure>(all_states(windows, windows.len() as int))
        }),
{
    lemma_map_parts(windows, reserved);
    lemma_mappings_before(windows, reserved, windows.len() as int);
}

} // verus!
