//! Bun's compact binary form of a list of mappings.
//!
//! A map is a header, a table of sync entries and a stream. Each sync entry holds one mapping
//! in full and the position of a window in the stream; the window holds the mappings up to
//! the next sync entry, each as differences from the one before it. The differences lie in
//! lanes of varints, and bit masks say where a difference can be told without a varint.

use vstd::prelude::*;

use crate::bytes;
use crate::error::{ExtractError, Failure};
use crate::mappings;
use crate::mappings::{emit_vlq, MapState};
use crate::vlq;
use crate::vlq::read_varint;

verus! {

/// The size of the header.
pub const INTERNAL_SOURCEMAP_HEADER_SIZE: usize = 32;

/// The size of a sync entry.
pub const SYNC_ENTRY_SIZE: usize = 24;

/// The most mappings that a window may hold, the one in its sync entry counted in.
pub const SYNC_INTERVAL: u8 = 64;

/// The bytes that follow the last window in the stream.
pub const STREAM_TAIL_PAD: usize = 1;

/// The window lists line differences that the line mask cannot tell.
pub const FLAG_HAS_GEN_LINE_EXCEPTIONS: u8 = 4;

/// The window holds differences of source indices.
pub const FLAG_HAS_SRC_IDX: u8 = 8;

/// The window starts with its header and the three masks, which have this size.
pub const WINDOW_HEADER_SIZE: usize = 32;

/// Whether the bit with this index is set in the mask at `base`.
pub open spec fn bit_at(bytes: Seq<u8>, base: int, index: int) -> bool {
    (bytes[base + index / 8] >> ((index % 8) as u8)) & 1 != 0
}

/// Tests a bit of the mask at `base`.
pub fn test_bit(bytes: &[u8], base: usize, idx: usize) -> (result: Result<bool, ExtractError>)
    requires
        base + idx / 8 <= usize::MAX,
    ensures
        match result {
            Ok(set) => base + idx / 8 < bytes@.len() && set == bit_at(
                bytes@,
                base as int,
                idx as int,
            ),
            Err(e) => base + idx / 8 >= bytes@.len() && e@ == (Failure::SourceMapParseFailed {
                reason: "internal sourcemap bit mask out of bounds"@,
            }),
        },
{
    let position: usize = base + idx / 8;
    if position >= bytes.len() {
        return Err(
            ExtractError::SourceMapParseFailed {
                reason: "internal sourcemap bit mask out of bounds",
            },
        );
    }
    Ok((bytes[position] >> ((idx % 8) as u8)) & 1 != 0)
}

/// Where the lanes of a window are read next, and which mapping comes next.
pub struct Window {
    pub base: int,
    pub gen_col_pos: int,
    pub orig_line_exc_pos: int,
    pub orig_col_exc_pos: int,
    pub gen_line_exc_pos: int,
    pub src_idx_mask_pos: int,
    pub src_idx_exc_pos: int,
    pub count: int,
    pub flags: u8,
    pub gen_line_exc_next_idx: u8,
    pub delta_idx: int,
}

/// The end of the list of line exceptions at `pos`: the position of its terminator, or the
/// end of the bytes. An exception is an index and a varint.
pub open spec fn line_exceptions_end(bytes: Seq<u8>, pos: int) -> Result<int, Failure>
    decreases bytes.len() - pos,
{
    if pos >= bytes.len() || bytes[pos] == 0xFF {
        Ok(pos)
    } else {
        match vlq::varint_at(bytes, pos + 1) {
            Err(failure) => Err(failure),
            Ok((_, next)) => {
                proof {
                    vlq::lemma_varint_bounds(bytes, pos + 1);
                }
                line_exceptions_end(bytes, next)
            },
        }
    }
}

/// The window at `start`, before its first difference is read.
pub open spec fn window_at(bytes: Seq<u8>, start: int) -> Result<Window, Failure> {
    if start + WINDOW_HEADER_SIZE > bytes.len() {
        Err(
            Failure::SourceMapParseFailed {
                reason: "internal sourcemap window header out of bounds"@,
            },
        )
    } else {
        let gen_col_pos = start + WINDOW_HEADER_SIZE;
        let orig_line_exc_pos = gen_col_pos + bytes::le_at(bytes, start + 2, 2);
        let orig_col_exc_pos = orig_line_exc_pos + bytes::le_at(bytes, start + 4, 2);
        let lanes_end = orig_col_exc_pos + bytes::le_at(bytes, start + 6, 2);
        let flags = bytes[start + 1];
        if lanes_end > usize::MAX {
            Err(
                Failure::SourceMapParseFailed { reason: "internal sourcemap window overflow"@ },
            )
        } else if lanes_end > bytes.len() {
            Err(
                Failure::SourceMapParseFailed {
                    reason: "internal sourcemap window sections out of bounds"@,
                },
            )
        } else {
            let window = Window {
                base: start,
                gen_col_pos,
                orig_line_exc_pos,
                orig_col_exc_pos,
                gen_line_exc_pos: lanes_end,
                src_idx_mask_pos: 0,
                src_idx_exc_pos: lanes_end,
                count: if bytes[start] < SYNC_INTERVAL {
                    bytes[start] as int
                } else {
                    SYNC_INTERVAL as int
                },
                flags,
                gen_line_exc_next_idx: 0xFF,
                delta_idx: 0,
            };
            if flags & FLAG_HAS_GEN_LINE_EXCEPTIONS == 0 {
                with_source_lane(bytes, window)
            } else if lanes_end == bytes.len() {
                Err(
                    Failure::SourceMapParseFailed {
                        reason: "internal sourcemap gen-line exception missing terminator"@,
                    },
                )
            } else {
                match line_exceptions_end(bytes, lanes_end) {
                    Err(failure) => Err(failure),
                    Ok(end) => if end + 1 > usize::MAX {
                        Err(
                            Failure::SourceMapParseFailed {
                                reason: "internal sourcemap gen-line exception overflow"@,
                            },
                        )
                    } else {
                        with_source_lane(
                            bytes,
                            Window {
                                gen_line_exc_next_idx: bytes[lanes_end],
                                src_idx_exc_pos: end + 1,
                                ..window
                            },
                        )
                    },
                }
            }
        }
    }
}

/// The window with its source lane, if it has one: a mask and the varints behind it.
pub open spec fn with_source_lane(bytes: Seq<u8>, window: Window) -> Result<Window, Failure> {
    if window.flags & FLAG_HAS_SRC_IDX == 0 {
        Ok(window)
    } else if window.src_idx_exc_pos + 8 > bytes.len() {
        Err(
            Failure::SourceMapParseFailed {
                reason: "internal sourcemap source-index mask out of bounds"@,
            },
        )
    } else {
        Ok(
            Window {
                src_idx_mask_pos: window.src_idx_exc_pos,
                src_idx_exc_pos: window.src_idx_exc_pos + 8,
                ..window
            },
        )
    }
}

/// One step through a window: the window behind the difference, and the mapping that the
/// difference leads to. A line difference is zero, one, or an exception; on a new line the
/// column is told in full. Differences of the source position are those of the generated
/// one where the masks say so. Sums are cut to 32 bits.
pub open spec fn step(bytes: Seq<u8>, window: Window, state: MapState) -> Result<
    (Window, MapState),
    Failure,
> {
    let idx = window.delta_idx;
    let same_line = bit_at(bytes, window.base + 16, idx);
    let same_column = bit_at(bytes, window.base + 24, idx);
    let has_exception = window.gen_line_exc_next_idx == idx;
    match vlq::varint_at(bytes, window.gen_col_pos) {
        Err(failure) => Err(failure),
        Ok((column, gen_col_pos)) => match optional_varint(
            bytes,
            window.orig_line_exc_pos,
            !same_line,
        ) {
            Err(failure) => Err(failure),
            Ok((own_line, orig_line_exc_pos)) => match optional_varint(
                bytes,
                window.orig_col_exc_pos,
                !same_column,
            ) {
                Err(failure) => Err(failure),
                Ok((own_column, orig_col_exc_pos)) => match optional_varint(
                    bytes,
                    window.gen_line_exc_pos + 1,
                    has_exception,
                ) {
                    Err(failure) => Err(failure),
                    Ok((exception, exception_end)) => if has_exception && exception_end
                        >= bytes.len() {
                        Err(
                            Failure::SourceMapParseFailed {
                                reason:
                                    "internal sourcemap gen-line exception cursor out of bounds"@,
                            },
                        )
                    } else {
                        match optional_varint(
                            bytes,
                            window.src_idx_exc_pos,
                            window.flags & FLAG_HAS_SRC_IDX != 0 && !bit_at(
                                bytes,
                                window.src_idx_mask_pos,
                                idx,
                            ),
                        ) {
                            Err(failure) => Err(failure),
                            Ok((source, src_idx_exc_pos)) => {
                                let line = if has_exception {
                                    exception
                                } else if bit_at(bytes, window.base + 8, idx) {
                                    1
                                } else {
                                    0
                                };
                                Ok(
                                    (
                                        Window {
                                            gen_col_pos,
                                            orig_line_exc_pos,
                                            orig_col_exc_pos,
                                            gen_line_exc_pos: if has_exception {
                                                exception_end
                                            } else {
                                                window.gen_line_exc_pos
                                            },
                                            gen_line_exc_next_idx: if has_exception {
                                                bytes[exception_end]
                                            } else {
                                                window.gen_line_exc_next_idx
                                            },
                                            src_idx_exc_pos,
                                            delta_idx: idx + 1,
                                            ..window
                                        },
                                        MapState {
                                            generated_line: sum(state.generated_line, line),
                                            generated_column: if line != 0 {
                                                column
                                            } else {
                                                sum(state.generated_column, column)
                                            },
                                            source_index: sum(state.source_index, source),
                                            original_line: sum(
                                                state.original_line,
                                                if same_line {
                                                    line
                                                } else {
                                                    own_line
                                                },
                                            ),
                                            original_column: sum(
                                                state.original_column,
                                                if same_column {
                                                    column
                                                } else {
                                                    own_column
                                                },
                                            ),
                                        },
                                    ),
                                )
                            },
                        }
                    },
                },
            },
        },
    }
}

/// The window behind a difference that cannot be read. The difference counts as read, and each lane
/// stands where reading it ended.
pub open spec fn after_failure(bytes: Seq<u8>, window: Window) -> Window {
    let idx = window.delta_idx;
    let counted = Window { delta_idx: idx + 1, ..window };
    let same_line = bit_at(bytes, window.base + 16, idx);
    let same_column = bit_at(bytes, window.base + 24, idx);
    let has_exception = window.gen_line_exc_next_idx == idx;
    match vlq::varint_at(bytes, window.gen_col_pos) {
        Err(_) => Window { gen_col_pos: vlq::stopped_at(bytes, window.gen_col_pos), ..counted },
        Ok((_, gen_col_pos)) => match optional_varint(
            bytes,
            window.orig_line_exc_pos,
            !same_line,
        ) {
            Err(_) => Window {
                gen_col_pos,
                orig_line_exc_pos: vlq::stopped_at(bytes, window.orig_line_exc_pos),
                ..counted
            },
            Ok((_, orig_line_exc_pos)) => match optional_varint(
                bytes,
                window.orig_col_exc_pos,
                !same_column,
            ) {
                Err(_) => Window {
                    gen_col_pos,
                    orig_line_exc_pos,
                    orig_col_exc_pos: vlq::stopped_at(bytes, window.orig_col_exc_pos),
                    ..counted
                },
                Ok((_, orig_col_exc_pos)) => {
                    let read = Window { gen_col_pos, orig_line_exc_pos, orig_col_exc_pos, ..counted };
                    match optional_varint(bytes, window.gen_line_exc_pos + 1, has_exception) {
                        Err(_) => read,
                        Ok((_, exception_end)) => if has_exception && exception_end
                            >= bytes.len() {
                            Window { gen_line_exc_pos: exception_end, ..read }
                        } else if has_exception {
                            Window {
                                gen_line_exc_pos: exception_end,
                                gen_line_exc_next_idx: bytes[exception_end],
                                src_idx_exc_pos: vlq::stopped_at(bytes, window.src_idx_exc_pos),
                                ..read
                            }
                        } else {
                            Window {
                                src_idx_exc_pos: vlq::stopped_at(bytes, window.src_idx_exc_pos),
                                ..read
                            }
                        },
                    }
                },
            },
        },
    }
}

/// A sum in 32 bits.
pub open spec fn sum(value: i32, difference: i32) -> i32 {
    vstd::wrapping::i32_specs::wrapping_add(value, difference)
}

/// The varint at `pos` if it is there to be read, and else zero, with `pos` kept.
pub open spec fn optional_varint(bytes: Seq<u8>, pos: int, present: bool) -> Result<
    (i32, int),
    Failure,
> {
    if present {
        vlq::varint_at(bytes, pos)
    } else {
        Ok((0, pos))
    }
}

/// The mappings that the rest of a window leads to, from `state` on.
pub open spec fn rest_of_window(bytes: Seq<u8>, window: Window, state: MapState) -> Result<
    Seq<MapState>,
    Failure,
>
    decreases window.count - window.delta_idx,
{
    if window.delta_idx + 1 >= window.count {
        Ok(Seq::empty())
    } else {
        match step(bytes, window, state) {
            Err(failure) => Err(failure),
            Ok((next, mapping)) => match rest_of_window(bytes, next, mapping) {
                Err(failure) => Err(failure),
                Ok(mappings) => Ok(seq![mapping] + mappings),
            },
        }
    }
}

/// Reads the mappings of one window.
pub struct WindowReader<'a> {
    bytes: &'a [u8],
    base: usize,
    gen_col_pos: usize,
    orig_line_exc_pos: usize,
    orig_col_exc_pos: usize,
    gen_line_exc_pos: usize,
    src_idx_mask_pos: usize,
    src_idx_exc_pos: usize,
    count: u8,
    flags: u8,
    gen_line_exc_next_idx: u8,
    delta_idx: u8,
}

impl<'a> View for WindowReader<'a> {
    type V = Window;

    closed spec fn view(&self) -> Window {
        Window {
            base: self.base as int,
            gen_col_pos: self.gen_col_pos as int,
            orig_line_exc_pos: self.orig_line_exc_pos as int,
            orig_col_exc_pos: self.orig_col_exc_pos as int,
            gen_line_exc_pos: self.gen_line_exc_pos as int,
            src_idx_mask_pos: self.src_idx_mask_pos as int,
            src_idx_exc_pos: self.src_idx_exc_pos as int,
            count: self.count as int,
            flags: self.flags,
            gen_line_exc_next_idx: self.gen_line_exc_next_idx,
            delta_idx: self.delta_idx as int,
        }
    }
}

impl<'a> WindowReader<'a> {
    /// The stream that the window lies in.
    pub closed spec fn stream(&self) -> Seq<u8> {
        self.bytes@
    }

    /// The masks lie inside the stream, and so does the next line exception, if there is one that
    /// is still to come.
    pub closed spec fn well_formed(&self) -> bool {
        &&& self.base + WINDOW_HEADER_SIZE <= self.bytes.len()
        &&& self.count <= SYNC_INTERVAL
        &&& self.delta_idx <= self.gen_line_exc_next_idx < 0xFF ==> self.gen_line_exc_pos
            < self.bytes.len()
        &&& self.flags & FLAG_HAS_SRC_IDX != 0 ==> self.src_idx_mask_pos + 8 <= self.bytes.len()
    }

    /// Opens the window at `start`.
    pub fn parse(bytes: &'a [u8], start: usize) -> (result: Result<Self, ExtractError>)
        ensures
            match result {
                Ok(reader) => reader.well_formed() && reader.stream() == bytes@ && window_at(
                    bytes@,
                    start as int,
                ) == Ok::<Window, Failure>(reader@),
                Err(e) => window_at(bytes@, start as int) == Err::<Window, Failure>(e@),
            },
    {
        if start > bytes.len() || bytes.len() - start < WINDOW_HEADER_SIZE {
            return Err(
                ExtractError::SourceMapParseFailed {
                    reason: "internal sourcemap window header out of bounds",
                },
            );
        }
        let count: u8 = if bytes[start] < SYNC_INTERVAL {
            bytes[start]
        } else {
            SYNC_INTERVAL
        };
        let flags: u8 = bytes[start + 1];
        let gen_col_len: usize = bytes::u16_at(bytes, start + 2) as usize;
        let orig_line_len: usize = bytes::u16_at(bytes, start + 4) as usize;
        let orig_col_len: usize = bytes::u16_at(bytes, start + 6) as usize;
        let gen_col_pos: usize = start + WINDOW_HEADER_SIZE;
        if gen_col_len > usize::MAX - gen_col_pos || orig_line_len > usize::MAX - gen_col_pos
            - gen_col_len || orig_col_len > usize::MAX - gen_col_pos - gen_col_len
            - orig_line_len {
            return Err(
                ExtractError::SourceMapParseFailed {
                    reason: "internal sourcemap window overflow",
                },
            );
        }
        let orig_line_exc_pos: usize = gen_col_pos + gen_col_len;
        let orig_col_exc_pos: usize = orig_line_exc_pos + orig_line_len;
        let lanes_end: usize = orig_col_exc_pos + orig_col_len;
        if lanes_end > bytes.len() {
            return Err(
                ExtractError::SourceMapParseFailed {
                    reason: "internal sourcemap window sections out of bounds",
                },
            );
        }
        let mut pos: usize = lanes_end;
        let mut gen_line_exc_next_idx: u8 = 0xFF;
        if flags & FLAG_HAS_GEN_LINE_EXCEPTIONS != 0 {
            if pos >= bytes.len() {
                return Err(
                    ExtractError::SourceMapParseFailed {
                        reason: "internal sourcemap gen-line exception missing terminator",
                    },
                );
            }
            gen_line_exc_next_idx = bytes[pos];
            match skip_line_exceptions(bytes, pos) {
                Err(e) => {
                    return Err(e);
                },
                Ok(end) => {
                    if end == usize::MAX {
                        return Err(
                            ExtractError::SourceMapParseFailed {
                                reason: "internal sourcemap gen-line exception overflow",
                            },
                        );
                    }
                    pos = end + 1;
                },
            }
        }
        let mut src_idx_mask_pos: usize = 0;
        if flags & FLAG_HAS_SRC_IDX != 0 {
            if pos > bytes.len() || bytes.len() - pos < 8 {
                return Err(
                    ExtractError::SourceMapParseFailed {
                        reason: "internal sourcemap source-index mask out of bounds",
                    },
                );
            }
            src_idx_mask_pos = pos;
            pos = pos + 8;
        }
        Ok(
            WindowReader {
                bytes,
                base: start,
                gen_col_pos,
                orig_line_exc_pos,
                orig_col_exc_pos,
                gen_line_exc_pos: lanes_end,
                src_idx_mask_pos,
                src_idx_exc_pos: pos,
                count,
                flags,
                gen_line_exc_next_idx,
                delta_idx: 0,
            },
        )
    }

    /// Whether the window holds no further mapping.
    pub fn done(&self) -> (yes: bool)
        requires
            self.well_formed(),
        ensures
            yes == (self@.delta_idx + 1 >= self@.count),
    {
        self.count == 0 || self.delta_idx >= self.count - 1
    }

    /// Reads the next difference and applies it to `state`. The difference counts as read even
    /// where it cannot be; `state` is kept then.
    pub fn next(&mut self, state: &mut MapState) -> (result: Result<(), ExtractError>)
        requires
            old(self).well_formed(),
            old(self)@.delta_idx + 1 < old(self)@.count,
        ensures
            final(self).well_formed(),
            final(self).stream() == old(self).stream(),
            match result {
                Ok(_) => step(old(self).stream(), old(self)@, *old(state)) == Ok::<
                    (Window, MapState),
                    Failure,
                >((final(self)@, *final(state))),
                Err(e) => {
                    &&& step(old(self).stream(), old(self)@, *old(state)) == Err::<
                        (Window, MapState),
                        Failure,
                    >(e@)
                    &&& final(self)@ == after_failure(old(self).stream(), old(self)@)
                    &&& *final(state) == *old(state)
                },
            },
    {
        let idx: usize = self.delta_idx as usize;
        let has_exception: bool = self.gen_line_exc_next_idx == self.delta_idx;
        self.delta_idx = self.delta_idx + 1;
        let mut line: i32 = if test_bit(self.bytes, self.base + 8, idx)? {
            1
        } else {
            0
        };
        let same_line: bool = test_bit(self.bytes, self.base + 16, idx)?;
        let same_column: bool = test_bit(self.bytes, self.base + 24, idx)?;
        let column: i32 = read_varint(self.bytes, &mut self.gen_col_pos)?;
        let own_line: i32 = if same_line {
            0
        } else {
            read_varint(self.bytes, &mut self.orig_line_exc_pos)?
        };
        let own_column: i32 = if same_column {
            0
        } else {
            read_varint(self.bytes, &mut self.orig_col_exc_pos)?
        };
        if has_exception {
            let mut pos: usize = self.gen_line_exc_pos + 1;
            line = read_varint(self.bytes, &mut pos)?;
            self.gen_line_exc_pos = pos;
            if pos >= self.bytes.len() {
                return Err(
                    ExtractError::SourceMapParseFailed {
                        reason: "internal sourcemap gen-line exception cursor out of bounds",
                    },
                );
            }
            self.gen_line_exc_next_idx = self.bytes[pos];
        }
        let mut source: i32 = 0;
        if self.flags & FLAG_HAS_SRC_IDX != 0 && !test_bit(self.bytes, self.src_idx_mask_pos, idx)? {
            source = read_varint(self.bytes, &mut self.src_idx_exc_pos)?;
        }
        state.source_index = state.source_index.wrapping_add(source);
        if line != 0 {
            state.generated_line = state.generated_line.wrapping_add(line);
            state.generated_column = column;
        } else {
            state.generated_column = state.generated_column.wrapping_add(column);
        }
        state.original_line = state.original_line.wrapping_add(
            if same_line {
                line
            } else {
                own_line
            },
        );
        state.original_column = state.original_column.wrapping_add(
            if same_column {
                column
            } else {
                own_column
            },
        );
        Ok(())
    }
}

/// Finds the end of the list of line exceptions at `start`.
fn skip_line_exceptions(bytes: &[u8], start: usize) -> (result: Result<usize, ExtractError>)
    ensures
        match result {
            Ok(end) => line_exceptions_end(bytes@, start as int) == Ok::<int, Failure>(end as int),
            Err(e) => line_exceptions_end(bytes@, start as int) == Err::<int, Failure>(e@),
        },
{
    let mut pos: usize = start;
    while pos < bytes.len() && bytes[pos] != 0xFF
        invariant
            line_exceptions_end(bytes@, start as int) == line_exceptions_end(bytes@, pos as int),
            bytes.len() == bytes@.len(),
        decreases bytes@.len() - pos,
    {
        pos = pos + 1;
        proof {
            vlq::lemma_varint_bounds(bytes@, pos as int);
        }
        match read_varint(bytes, &mut pos) {
            Ok(_) => {},
            Err(e) => {
                return Err(e);
            },
        }
    }
    Ok(pos)
}

/// The two-byte number at `offset`.
pub fn read_u16(data: &[u8], offset: usize) -> (result: Result<u16, ExtractError>)
    ensures
        match result {
            Ok(value) => offset + 2 <= data@.len() && value == bytes::le_at(
                data@,
                offset as int,
                2,
            ),
            Err(e) => offset + 2 > data@.len() && e@ == (Failure::SourceMapParseFailed {
                reason: "internal sourcemap u16 out of bounds"@,
            }),
        },
{
    if offset > data.len() || data.len() - offset < 2 {
        return Err(
            ExtractError::SourceMapParseFailed { reason: "internal sourcemap u16 out of bounds" },
        );
    }
    Ok(bytes::u16_at(data, offset))
}

/// The four-byte number at `offset`.
pub fn read_u32(data: &[u8], offset: usize) -> (result: Result<u32, ExtractError>)
    ensures
        match result {
            Ok(value) => offset + 4 <= data@.len() && value == bytes::le_at(
                data@,
                offset as int,
                4,
            ),
            Err(e) => offset + 4 > data@.len() && e@ == (Failure::SourceMapParseFailed {
                reason: "internal sourcemap u32 out of bounds"@,
            }),
        },
{
    if offset > data.len() || data.len() - offset < 4 {
        return Err(
            ExtractError::SourceMapParseFailed { reason: "internal sourcemap u32 out of bounds" },
        );
    }
    Ok(bytes::u32_at(data, offset))
}

/// The eight-byte number at `offset`.
pub fn read_u64(data: &[u8], offset: usize) -> (result: Result<u64, ExtractError>)
    ensures
        match result {
            Ok(value) => offset + 8 <= data@.len() && value == bytes::le_at(
                data@,
                offset as int,
                8,
            ),
            Err(e) => offset + 8 > data@.len() && e@ == (Failure::SourceMapParseFailed {
                reason: "internal sourcemap u64 out of bounds"@,
            }),
        },
{
    if offset > data.len() || data.len() - offset < 8 {
        return Err(
            ExtractError::SourceMapParseFailed { reason: "internal sourcemap u64 out of bounds" },
        );
    }
    Ok(bytes::u64_at(data, offset))
}

/// The signed number that a 32-bit word holds in two's complement.
pub open spec fn signed(word: nat) -> i32 {
    if word < 0x8000_0000 {
        word as i32
    } else {
        (word - 0x1_0000_0000) as i32
    }
}

/// The four-byte signed number at `offset`.
pub fn read_i32(data: &[u8], offset: usize) -> (result: Result<i32, ExtractError>)
    ensures
        match result {
            Ok(value) => offset + 4 <= data@.len() && value == signed(
                bytes::le_at(data@, offset as int, 4),
            ),
            Err(e) => offset + 4 > data@.len() && e@ == (Failure::SourceMapParseFailed {
                reason: "internal sourcemap u32 out of bounds"@,
            }),
        },
{
    let word: u32 = read_u32(data, offset)?;
    if word < 0x8000_0000 {
        Ok(word as i32)
    } else {
        Ok(-((u32::MAX - word) as i32) - 1)
    }
}

/// An entry of the sync table: the first mapping of a window, and where in the stream the
/// window lies.
#[derive(Debug, Clone, Copy)]
pub struct SyncEntry {
    pub generated_line: i32,
    pub generated_column: i32,
    pub byte_offset: usize,
    pub original_line: i32,
    pub original_column: i32,
    pub source_index: i32,
}

impl SyncEntry {
    /// The mapping that the entry holds.
    pub open spec fn mapping(self) -> MapState {
        MapState {
            generated_line: self.generated_line,
            generated_column: self.generated_column,
            source_index: self.source_index,
            original_line: self.original_line,
            original_column: self.original_column,
        }
    }

    /// The mapping that the entry holds.
    pub fn to_state(self) -> (state: MapState)
        ensures
            state == self.mapping(),
    {
        MapState {
            generated_line: self.generated_line,
            generated_column: self.generated_column,
            source_index: self.source_index,
            original_line: self.original_line,
            original_column: self.original_column,
        }
    }
}

/// The position of a sync entry in the map.
pub open spec fn sync_offset(index: int) -> int {
    INTERNAL_SOURCEMAP_HEADER_SIZE + index * SYNC_ENTRY_SIZE
}

/// The sync entry with this index.
pub open spec fn sync_entry_at(blob: Seq<u8>, index: int) -> Result<SyncEntry, Failure> {
    let at = sync_offset(index);
    if at > usize::MAX {
        Err(Failure::SourceMapParseFailed { reason: "internal sourcemap sync entry overflow"@ })
    } else if at + SYNC_ENTRY_SIZE > blob.len() {
        Err(Failure::SourceMapParseFailed { reason: "internal sourcemap u32 out of bounds"@ })
    } else {
        Ok(
            SyncEntry {
                generated_line: signed(bytes::le_at(blob, at, 4)),
                generated_column: signed(bytes::le_at(blob, at + 4, 4)),
                byte_offset: bytes::le_at(blob, at + 8, 4) as usize,
                original_line: signed(bytes::le_at(blob, at + 12, 4)),
                original_column: signed(bytes::le_at(blob, at + 16, 4)),
                source_index: signed(bytes::le_at(blob, at + 20, 4)),
            },
        )
    }
}

/// What the header of a map says: how many sync entries there are, and where the stream starts.
pub struct Layout {
    pub sync_count: int,
    pub stream_offset: int,
}

/// The layout of a map. The header repeats the length of the whole; the sync table lies in
/// front of the stream, and the stream is not empty.
pub open spec fn layout_of(blob: Seq<u8>) -> Result<Layout, Failure> {
    if blob.len() < INTERNAL_SOURCEMAP_HEADER_SIZE {
        Err(Failure::SourceMapParseFailed { reason: "internal sourcemap blob too small"@ })
    } else if (bytes::le_at(blob, 0, 8) as u64) as usize != blob.len() {
        Err(Failure::SourceMapParseFailed { reason: "internal sourcemap length mismatch"@ })
    } else {
        let sync_count = bytes::le_at(blob, 24, 4) as int;
        let stream_offset = bytes::le_at(blob, 28, 4) as int;
        if sync_offset(sync_count) > usize::MAX {
            Err(
                Failure::SourceMapParseFailed {
                    reason: "internal sourcemap sync table overflow"@,
                },
            )
        } else if stream_offset < sync_offset(sync_count) || stream_offset > blob.len() {
            Err(
                Failure::SourceMapParseFailed {
                    reason: "internal sourcemap stream offset out of bounds"@,
                },
            )
        } else if stream_offset + STREAM_TAIL_PAD > blob.len() {
            Err(
                Failure::SourceMapParseFailed {
                    reason: "internal sourcemap missing stream tail pad"@,
                },
            )
        } else {
            Ok(Layout { sync_count, stream_offset })
        }
    }
}

/// The mappings of one window: the one in its sync entry, and those that its differences lead
/// to.
pub open spec fn window_mappings(blob: Seq<u8>, stream: Seq<u8>, index: int) -> Result<
    Seq<MapState>,
    Failure,
> {
    match sync_entry_at(blob, index) {
        Err(failure) => Err(failure),
        Ok(entry) => match window_at(stream, entry.byte_offset as int) {
            Err(failure) => Err(failure),
            Ok(window) => match rest_of_window(stream, window, entry.mapping()) {
                Err(failure) => Err(failure),
                Ok(rest) => Ok(seq![entry.mapping()] + rest),
            },
        },
    }
}

/// The mappings of the first `count` windows, or the first failure among them.
pub open spec fn mappings_before(blob: Seq<u8>, stream: Seq<u8>, count: int) -> Result<
    Seq<MapState>,
    Failure,
>
    decreases count,
{
    if count <= 0 {
        Ok(Seq::empty())
    } else {
        match mappings_before(blob, stream, count - 1) {
            Err(failure) => Err(failure),
            Ok(before) => match window_mappings(blob, stream, count - 1) {
                Err(failure) => Err(failure),
                Ok(own) => Ok(before + own),
            },
        }
    }
}

/// Once a window fails, so does every longer list.
proof fn lemma_failure_stays(blob: Seq<u8>, stream: Seq<u8>, shorter: int, longer: int)
    requires
        shorter <= longer,
        mappings_before(blob, stream, shorter) is Err,
    ensures
        mappings_before(blob, stream, longer) == mappings_before(blob, stream, shorter),
    decreases longer - shorter,
{
    if shorter < longer {
        lemma_failure_stays(blob, stream, shorter, longer - 1);
    }
}

/// All mappings of a map whose header says `layout`.
pub open spec fn mappings_of(blob: Seq<u8>, layout: Layout) -> Result<Seq<MapState>, Failure> {
    mappings_before(
        blob,
        blob.subrange(layout.stream_offset, blob.len() as int),
        layout.sync_count,
    )
}

/// A map whose header has been read.
pub struct InternalSourceMap<'a> {
    blob: &'a [u8],
    sync_count: usize,
    stream_offset: usize,
}

impl<'a> InternalSourceMap<'a> {
    /// The whole map.
    pub closed spec fn blob(&self) -> Seq<u8> {
        self.blob@
    }

    /// What the header says.
    pub closed spec fn layout(&self) -> Layout {
        Layout { sync_count: self.sync_count as int, stream_offset: self.stream_offset as int }
    }

    /// The layout is the one in the header of the map.
    pub open spec fn well_formed(&self) -> bool {
        layout_of(self.blob()) == Ok::<Layout, Failure>(self.layout())
    }

    /// Reads the header of a map.
    pub fn parse(blob: &'a [u8]) -> (result: Result<Self, ExtractError>)
        ensures
            match result {
                Ok(map) => map.well_formed() && map.blob() == blob@,
                Err(e) => layout_of(blob@) == Err::<Layout, Failure>(e@),
            },
    {
        if blob.len() < INTERNAL_SOURCEMAP_HEADER_SIZE {
            return Err(
                ExtractError::SourceMapParseFailed { reason: "internal sourcemap blob too small" },
            );
        }
        let total_len: usize = read_u64(blob, 0)? as usize;
        if total_len != blob.len() {
            return Err(
                ExtractError::SourceMapParseFailed {
                    reason: "internal sourcemap length mismatch",
                },
            );
        }
        let sync_count: usize = read_u32(blob, 24)? as usize;
        let stream_offset: usize = read_u32(blob, 28)? as usize;
        let sync_end: usize = match sync_count.checked_mul(SYNC_ENTRY_SIZE) {
            Some(size) if size <= usize::MAX - INTERNAL_SOURCEMAP_HEADER_SIZE =>
                INTERNAL_SOURCEMAP_HEADER_SIZE + size,
            _ => {
                return Err(
                    ExtractError::SourceMapParseFailed {
                        reason: "internal sourcemap sync table overflow",
                    },
                );
            },
        };
        if stream_offset < sync_end || stream_offset > total_len {
            return Err(
                ExtractError::SourceMapParseFailed {
                    reason: "internal sourcemap stream offset out of bounds",
                },
            );
        }
        if total_len - stream_offset < STREAM_TAIL_PAD {
            return Err(
                ExtractError::SourceMapParseFailed {
                    reason: "internal sourcemap missing stream tail pad",
                },
            );
        }
        Ok(InternalSourceMap { blob, sync_count, stream_offset })
    }

    /// Reads the sync entry with this index.
    pub fn sync_entry(&self, index: usize) -> (result: Result<SyncEntry, ExtractError>)
        ensures
            match result {
                Ok(entry) => sync_entry_at(self.blob(), index as int) == Ok::<SyncEntry, Failure>(
                    entry,
                ),
                Err(e) => sync_entry_at(self.blob(), index as int) == Err::<SyncEntry, Failure>(
                    e@,
                ),
            },
    {
        let off: usize = match index.checked_mul(SYNC_ENTRY_SIZE) {
            Some(distance) if distance <= usize::MAX - INTERNAL_SOURCEMAP_HEADER_SIZE =>
                INTERNAL_SOURCEMAP_HEADER_SIZE + distance,
            _ => {
                return Err(
                    ExtractError::SourceMapParseFailed {
                        reason: "internal sourcemap sync entry overflow",
                    },
                );
            },
        };
        if off > self.blob.len() || self.blob.len() - off < SYNC_ENTRY_SIZE {
            return Err(
                ExtractError::SourceMapParseFailed {
                    reason: "internal sourcemap u32 out of bounds",
                },
            );
        }
        Ok(
            SyncEntry {
                generated_line: read_i32(self.blob, off)?,
                generated_column: read_i32(self.blob, off + 4)?,
                byte_offset: read_u32(self.blob, off + 8)? as usize,
                original_line: read_i32(self.blob, off + 12)?,
                original_column: read_i32(self.blob, off + 16)?,
                source_index: read_i32(self.blob, off + 20)?,
            },
        )
    }

    /// The stream that the windows lie in.
    pub fn stream(&self) -> (stream: &'a [u8])
        requires
            self.well_formed(),
        ensures
            stream@ == self.blob().subrange(
                self.layout().stream_offset,
                self.blob().len() as int,
            ),
    {
        vstd::slice::slice_subrange(self.blob, self.stream_offset, self.blob.len())
    }

    /// The standard `mappings` string of the map.
    pub fn to_vlq(&self) -> (result: Result<String, ExtractError>)
        requires
            self.well_formed(),
        ensures
            match result {
                Ok(text) => match mappings_of(self.blob(), self.layout()) {
                    Ok(states) => text@ == mappings::mappings_text(states),
                    Err(_) => false,
                },
                Err(e) => mappings_of(self.blob(), self.layout()) == Err::<Seq<MapState>, Failure>(
                    e@,
                ),
            },
    {
        let stream = self.stream();
        let mut out = String::new();
        let mut previous = MapState::default();
        let mut generated_line: i32 = 0;
        let ghost mut done: Seq<MapState> = Seq::empty();
        let mut index: usize = 0;
        while index < self.sync_count
            invariant
                self.well_formed(),
                index <= self.sync_count,
                stream@ == self.blob().subrange(
                    self.layout().stream_offset,
                    self.blob().len() as int,
                ),
                mappings_before(self.blob(), stream@, index as int) == Ok::<
                    Seq<MapState>,
                    Failure,
                >(done),
                out@ == mappings::mappings_text(done),
                generated_line == mappings::line_reached(done),
                previous == mappings::last_state(done),
            decreases self.sync_count - index,
        {
            match self.write_window(
                stream,
                index,
                &mut previous,
                &mut generated_line,
                &mut out,
                Ghost(done),
            ) {
                Ok(()) => {
                    proof {
                        done = done + window_mappings(self.blob(), stream@, index as int)->Ok_0;
                    }
                },
                Err(e) => {
                    proof {
                        lemma_failure_stays(
                            self.blob(),
                            stream@,
                            index + 1,
                            self.sync_count as int,
                        );
                    }
                    return Err(e);
                },
            }
            index = index + 1;
        }
        Ok(out)
    }

    /// Writes the mappings of one window behind `out`, which lists the mappings in `done`.
    fn write_window(
        &self,
        stream: &'a [u8],
        index: usize,
        previous: &mut MapState,
        generated_line: &mut i32,
        out: &mut String,
        Ghost(done): Ghost<Seq<MapState>>,
    ) -> (result: Result<(), ExtractError>)
        requires
            old(out)@ == mappings::mappings_text(done),
            *old(generated_line) == mappings::line_reached(done),
            *old(previous) == mappings::last_state(done),
        ensures
            match result {
                Ok(_) => match window_mappings(self.blob(), stream@, index as int) {
                    Ok(own) => {
                        &&& final(out)@ == mappings::mappings_text(done + own)
                        &&& *final(generated_line) == mappings::line_reached(done + own)
                        &&& *final(previous) == mappings::last_state(done + own)
                    },
                    Err(_) => false,
                },
                Err(e) => window_mappings(self.blob(), stream@, index as int) == Err::<
                    Seq<MapState>,
                    Failure,
                >(e@),
            },
    {
        let entry = self.sync_entry(index)?;
        let mut state = entry.to_state();
        let mut reader = WindowReader::parse(stream, entry.byte_offset)?;
        let ghost mut own: Seq<MapState> = seq![state];
        proof {
            mappings::lemma_mappings_text(done);
            assert((done + own).drop_last() == done);
        }
        emit_vlq(&state, previous, generated_line, out);
        while !reader.done()
            invariant
                reader.well_formed(),
                reader.stream() == stream@,
                window_mappings(self.blob(), stream@, index as int) == (match rest_of_window(
                    stream@,
                    reader@,
                    state,
                ) {
                    Err(failure) => Err::<Seq<MapState>, Failure>(failure),
                    Ok(rest) => Ok(own + rest),
                }),
                out@ == mappings::mappings_text(done + own),
                *generated_line == mappings::line_reached(done + own),
                *previous == mappings::last_state(done + own),
            decreases reader@.count - reader@.delta_idx,
        {
            let ghost shorter = own;
            reader.next(&mut state)?;
            proof {
                mappings::lemma_mappings_text(done + own);
                own = own.push(state);
                assert((done + own).drop_last() == done + shorter);
                if let Ok(rest) = rest_of_window(stream@, reader@, state) {
                    assert(shorter + (seq![state] + rest) =~= own + rest);
                }
            }
            emit_vlq(&state, previous, generated_line, out);
        }
        Ok(())
    }
}

/// Which bytes are a map in the binary form. The first eight bytes repeat the length of the whole;
/// bytes 24 to 31 tell how many sync entries follow the header, 24 bytes each, and where the stream
/// starts, which comes behind them and has at least one byte.
pub proof fn map_layout(blob: Seq<u8>)
    requires
        bytes::le_at(blob, 0, 8) <= usize::MAX,
        32 + 24 * bytes::le_at(blob, 24, 4) <= usize::MAX,
    ensures
        ({
            let sync_count = bytes::le_at(blob, 24, 4) as int;
            let stream_offset = bytes::le_at(blob, 28, 4) as int;
            if blob.len() >= 32 && bytes::le_at(blob, 0, 8) == blob.len() && 32 + 24 * sync_count
                <= stream_offset < blob.len() {
                layout_of(blob) == Ok::<Layout, Failure>(Layout { sync_count, stream_offset })
            } else {
                layout_of(blob) == Err::<Layout, Failure>(
                    Failure::SourceMapParseFailed {
                        reason: if blob.len() < 32 {
                            "internal sourcemap blob too small"@
                        } else if bytes::le_at(blob, 0, 8) != blob.len() {
                            "internal sourcemap length mismatch"@
                        } else if stream_offset == blob.len() && stream_offset >= 32 + 24
                            * sync_count {
                            "internal sourcemap missing stream tail pad"@
                        } else {
                            "internal sourcemap stream offset out of bounds"@
                        },
                    },
                )
            }
        }),
{
    bytes::lemma_le_at_bound(blob, 0);
}

/// After a difference that cannot be read, the window stands at the next one; what its head says and
/// the masks stay as they are, and no lane goes back.
pub proof fn failed_step(bytes: Seq<u8>, window: Window, state: MapState)
    requires
        step(bytes, window, state) is Err,
    ensures
        ({
            let next = after_failure(bytes, window);
            &&& next.delta_idx == window.delta_idx + 1
            &&& next.base == window.base
            &&& next.count == window.count
            &&& next.flags == window.flags
            &&& next.src_idx_mask_pos == window.src_idx_mask_pos
            &&& next.gen_col_pos >= window.gen_col_pos
            &&& next.orig_line_exc_pos >= window.orig_line_exc_pos
            &&& next.orig_col_exc_pos >= window.orig_col_exc_pos
            &&& next.gen_line_exc_pos >= window.gen_line_exc_pos
            &&& next.src_idx_exc_pos >= window.src_idx_exc_pos
        }),
{
    vlq::lemma_varint_bounds(bytes, window.gen_col_pos);
    vlq::lemma_varint_bounds(bytes, window.orig_line_exc_pos);
    vlq::lemma_varint_bounds(bytes, window.orig_col_exc_pos);
    vlq::lemma_varint_bounds(bytes, window.gen_line_exc_pos + 1);
    vlq::lemma_varint_bounds(bytes, window.src_idx_exc_pos);
}

/// The fields of a sync entry: the line and the column, where its window starts in the stream, the
/// original line and column, and the source, each in four bytes.
pub proof fn sync_entry_fields(blob: Seq<u8>, index: int)
    requires
        0 <= index,
        32 + 24 * index + 24 <= blob.len() <= usize::MAX,
    ensures
        ({
            let at = 32 + 24 * index;
            &&& sync_entry_at(blob, index) matches Ok(entry)
            &&& entry.generated_line == signed(bytes::le_at(blob, at, 4))
            &&& entry.generated_column == signed(bytes::le_at(blob, at + 4, 4))
            &&& entry.byte_offset == bytes::le_at(blob, at + 8, 4)
            &&& entry.original_line == signed(bytes::le_at(blob, at + 12, 4))
            &&& entry.original_column == signed(bytes::le_at(blob, at + 16, 4))
            &&& entry.source_index == signed(bytes::le_at(blob, at + 20, 4))
            &&& entry.mapping() == (MapState {
                generated_line: entry.generated_line,
                generated_column: entry.generated_column,
                source_index: entry.source_index,
                original_line: entry.original_line,
                original_column: entry.original_column,
            })
        }),
{
    let at = 32 + 24 * index;
    bytes::lemma_le_at_bound(blob, at + 8);
    assert(at == sync_offset(index));
}

/// A word holds a signed number in two's complement.
pub proof fn signed_words(word: u32)
    ensures
        signed(word as nat) == word as i32,
{
    assert(word < 0x8000_0000 ==> word as i32 == word) by (bit_vector);
    assert(word >= 0x8000_0000 ==> word as i32 == word - 0x1_0000_0000) by (bit_vector);
}

/// The head of a window: how many mappings it has, of which 64 count at most, its flags, and the
/// lengths of the lanes for columns, original lines and original columns, which follow the masks.
pub proof fn window_fields(bytes: Seq<u8>, start: int)
    requires
        0 <= start,
    ensures
        start + 32 > bytes.len() ==> window_at(bytes, start) == Err::<Window, Failure>(
            Failure::SourceMapParseFailed {
                reason: "internal sourcemap window header out of bounds"@,
            },
        ),
        start + 32 <= bytes.len() < start + 32 + bytes::le_at(bytes, start + 2, 2) + bytes::le_at(
            bytes,
            start + 4,
            2,
        ) + bytes::le_at(bytes, start + 6, 2) <= usize::MAX ==> window_at(bytes, start) == Err::<
            Window,
            Failure,
        >(
            Failure::SourceMapParseFailed {
                reason: "internal sourcemap window sections out of bounds"@,
            },
        ),
        start + 32 + bytes::le_at(bytes, start + 2, 2) + bytes::le_at(bytes, start + 4, 2)
            + bytes::le_at(bytes, start + 6, 2) <= bytes.len() <= usize::MAX && bytes[start + 1] & 4
            == 0 && bytes[start + 1] & 8 == 0 ==> window_at(bytes, start) is Ok,
        window_at(bytes, start) matches Ok(window) ==> {
            &&& window.base == start
            &&& window.count == if bytes[start] <= 64 {
                bytes[start] as int
            } else {
                64
            }
            &&& window.flags == bytes[start + 1]
            &&& window.gen_col_pos == start + 32
            &&& window.orig_line_exc_pos == start + 32 + bytes::le_at(bytes, start + 2, 2)
            &&& window.orig_col_exc_pos == start + 32 + bytes::le_at(bytes, start + 2, 2)
                + bytes::le_at(bytes, start + 4, 2)
            &&& window.gen_line_exc_pos == start + 32 + bytes::le_at(bytes, start + 2, 2)
                + bytes::le_at(bytes, start + 4, 2) + bytes::le_at(bytes, start + 6, 2)
            &&& window.delta_idx == 0
            &&& bytes[start + 1] & 4 == 0 ==> window.gen_line_exc_next_idx == 0xff
            &&& bytes[start + 1] & 4 != 0 ==> window.gen_line_exc_next_idx
                == bytes[window.gen_line_exc_pos]
            &&& bytes[start + 1] & 8 != 0 ==> window.src_idx_exc_pos == window.src_idx_mask_pos + 8
            &&& bytes[start + 1] & 4 == 0 && bytes[start + 1] & 8 != 0 ==> window.src_idx_mask_pos
                == window.gen_line_exc_pos
        },
{
}

/// Bits of a mask count from the lowest of its first byte up.
pub proof fn mask_bits(bytes: Seq<u8>, base: int, index: int)
    requires
        0 <= index < 64,
    ensures
        ({
            let byte = bytes[base + index / 8];
            &&& index % 8 == 0 ==> bit_at(bytes, base, index) == (byte & 0x01 != 0)
            &&& index % 8 == 1 ==> bit_at(bytes, base, index) == (byte & 0x02 != 0)
            &&& index % 8 == 2 ==> bit_at(bytes, base, index) == (byte & 0x04 != 0)
            &&& index % 8 == 3 ==> bit_at(bytes, base, index) == (byte & 0x08 != 0)
            &&& index % 8 == 4 ==> bit_at(bytes, base, index) == (byte & 0x10 != 0)
            &&& index % 8 == 5 ==> bit_at(bytes, base, index) == (byte & 0x20 != 0)
            &&& index % 8 == 6 ==> bit_at(bytes, base, index) == (byte & 0x40 != 0)
            &&& index % 8 == 7 ==> bit_at(bytes, base, index) == (byte & 0x80 != 0)
        }),
{
    let byte = bytes[base + index / 8];
    assert({
        &&& ((byte >> 0u8) & 1 != 0) == (byte & 0x01 != 0)
        &&& ((byte >> 1u8) & 1 != 0) == (byte & 0x02 != 0)
        &&& ((byte >> 2u8) & 1 != 0) == (byte & 0x04 != 0)
        &&& ((byte >> 3u8) & 1 != 0) == (byte & 0x08 != 0)
        &&& ((byte >> 4u8) & 1 != 0) == (byte & 0x10 != 0)
        &&& ((byte >> 5u8) & 1 != 0) == (byte & 0x20 != 0)
        &&& ((byte >> 6u8) & 1 != 0) == (byte & 0x40 != 0)
        &&& ((byte >> 7u8) & 1 != 0) == (byte & 0x80 != 0)
    }) by (bit_vector);
}

/// What one step through a window does to a mapping, lane by lane. The column always comes from its
/// lane; on a new line it counts from the start, and otherwise from the column before. The line goes
/// up as the mask or an exception says. The original line and column move as the line and the column
/// do where their masks say so, and otherwise as their own lanes say. The source moves only where
/// the window has a lane for it and the mask leaves the difference to it.
pub proof fn step_by_lanes(bytes: Seq<u8>, window: Window, state: MapState)
    ensures
        step(bytes, window, state) matches Ok((next, mapping)) ==> {
            let idx = window.delta_idx;
            let exception = window.gen_line_exc_next_idx == idx;
            let column = vlq::varint_at(bytes, window.gen_col_pos);
            let line = vlq::varint_at(bytes, window.gen_line_exc_pos + 1);
            let by: i32 = if exception {
                line->Ok_0.0
            } else if bit_at(bytes, window.base + 8, idx) {
                1
            } else {
                0
            };
            &&& column is Ok && next.gen_col_pos == column->Ok_0.1
            &&& next.delta_idx == idx + 1
            &&& exception ==> line is Ok && next.gen_line_exc_pos == line->Ok_0.1
                && next.gen_line_exc_next_idx == bytes[next.gen_line_exc_pos]
            &&& mapping.generated_line == sum(state.generated_line, by)
            &&& by != 0 ==> mapping.generated_column == column->Ok_0.0
            &&& by == 0 ==> mapping.generated_column == sum(
                state.generated_column,
                column->Ok_0.0,
            )
            &&& bit_at(bytes, window.base + 16, idx) ==> mapping.original_line == sum(
                state.original_line,
                by,
            ) && next.orig_line_exc_pos == window.orig_line_exc_pos
            &&& !bit_at(bytes, window.base + 16, idx) ==> vlq::varint_at(
                bytes,
                window.orig_line_exc_pos,
            ) == Ok::<(i32, int), Failure>(
                (
                    vlq::varint_at(bytes, window.orig_line_exc_pos)->Ok_0.0,
                    next.orig_line_exc_pos,
                ),
            ) && mapping.original_line == sum(
                state.original_line,
                vlq::varint_at(bytes, window.orig_line_exc_pos)->Ok_0.0,
            )
            &&& bit_at(bytes, window.base + 24, idx) ==> mapping.original_column == sum(
                state.original_column,
                column->Ok_0.0,
            ) && next.orig_col_exc_pos == window.orig_col_exc_pos
            &&& !bit_at(bytes, window.base + 24, idx) ==> vlq::varint_at(
                bytes,
                window.orig_col_exc_pos,
            ) == Ok::<(i32, int), Failure>(
                (vlq::varint_at(bytes, window.orig_col_exc_pos)->Ok_0.0, next.orig_col_exc_pos),
            ) && mapping.original_column == sum(
                state.original_column,
                vlq::varint_at(bytes, window.orig_col_exc_pos)->Ok_0.0,
            )
            &&& window.flags & 8 == 0 || bit_at(bytes, window.src_idx_mask_pos, idx)
                ==> mapping.source_index == sum(state.source_index, 0) && next.src_idx_exc_pos
                == window.src_idx_exc_pos
            &&& window.flags & 8 != 0 && !bit_at(bytes, window.src_idx_mask_pos, idx)
                ==> vlq::varint_at(bytes, window.src_idx_exc_pos) == Ok::<(i32, int), Failure>(
                (vlq::varint_at(bytes, window.src_idx_exc_pos)->Ok_0.0, next.src_idx_exc_pos),
            ) && mapping.source_index == sum(
                state.source_index,
                vlq::varint_at(bytes, window.src_idx_exc_pos)->Ok_0.0,
            )
        },
{
}

/// Sums that fit in 32 bits are kept, and others wrap around.
pub proof fn sums(value: i32, difference: i32)
    ensures
        i32::MIN <= value + difference <= i32::MAX ==> sum(value, difference) == value + difference,
        value + difference > i32::MAX ==> sum(value, difference) == value + difference
            - 0x1_0000_0000,
        value + difference < i32::MIN ==> sum(value, difference) == value + difference
            + 0x1_0000_0000,
{
}

} // verus!
