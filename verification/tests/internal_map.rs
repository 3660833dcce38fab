use bun_binary_extractor::internal_map::{
    read_i32, read_u16, read_u32, read_u64, test_bit, InternalSourceMap, WindowReader,
};
use bun_binary_extractor::mappings::{emit_vlq, MapState};
use bun_binary_extractor::ExtractError;

/// A mapping: line, column, source, original line, original column.
type Mapping = (i32, i32, i32, i32, i32);

fn varint(value: i32) -> Vec<u8> {
    let mut code = ((value << 1) ^ (value >> 31)) as u32;
    let mut bytes = Vec::new();
    while code >= 0x80 {
        bytes.push((code & 0x7f) as u8 | 0x80);
        code >>= 7;
    }
    bytes.push(code as u8);
    bytes
}

/// A window for these mappings, the first of which its sync entry holds.
fn window(mappings: &[Mapping]) -> Vec<u8> {
    let mut line_mask = 0u64;
    let mut same_line = 0u64;
    let mut same_column = 0u64;
    let mut same_source = 0u64;
    let mut columns = Vec::new();
    let mut lines = Vec::new();
    let mut original_columns = Vec::new();
    let mut exceptions = Vec::new();
    let mut sources = Vec::new();
    for (index, pair) in mappings.windows(2).enumerate() {
        let (from, to) = (pair[0], pair[1]);
        let line = to.0 - from.0;
        let column = if line != 0 { to.1 } else { to.1 - from.1 };
        columns.extend(varint(column));
        if line == 1 {
            line_mask |= 1 << index;
        } else if line != 0 {
            exceptions.push(index as u8);
            exceptions.extend(varint(line));
        }
        if to.3 - from.3 == line {
            same_line |= 1 << index;
        } else {
            lines.extend(varint(to.3 - from.3));
        }
        if to.4 - from.4 == column {
            same_column |= 1 << index;
        } else {
            original_columns.extend(varint(to.4 - from.4));
        }
        if to.2 == from.2 {
            same_source |= 1 << index;
        } else {
            sources.extend(varint(to.2 - from.2));
        }
    }
    let mut flags = 0u8;
    if !exceptions.is_empty() {
        flags |= 4;
        exceptions.push(0xff);
    }
    if !sources.is_empty() {
        flags |= 8;
    }
    let mut bytes = vec![mappings.len() as u8, flags];
    bytes.extend((columns.len() as u16).to_le_bytes());
    bytes.extend((lines.len() as u16).to_le_bytes());
    bytes.extend((original_columns.len() as u16).to_le_bytes());
    bytes.extend(line_mask.to_le_bytes());
    bytes.extend(same_line.to_le_bytes());
    bytes.extend(same_column.to_le_bytes());
    bytes.extend(columns);
    bytes.extend(lines);
    bytes.extend(original_columns);
    bytes.extend(exceptions);
    if flags & 8 != 0 {
        bytes.extend(same_source.to_le_bytes());
        bytes.extend(sources);
    }
    bytes
}

/// A map with one window for each list of mappings.
fn map(windows: &[&[Mapping]]) -> Vec<u8> {
    let mut table = Vec::new();
    let mut stream = Vec::new();
    for mappings in windows {
        let first = mappings[0];
        table.extend(first.0.to_le_bytes());
        table.extend(first.1.to_le_bytes());
        table.extend((stream.len() as u32).to_le_bytes());
        table.extend(first.3.to_le_bytes());
        table.extend(first.4.to_le_bytes());
        table.extend(first.2.to_le_bytes());
        stream.extend(window(mappings));
    }
    stream.push(0);
    let total = 32 + table.len() + stream.len();
    let mut blob = Vec::new();
    blob.extend((total as u64).to_le_bytes());
    blob.extend([0; 16]);
    blob.extend((windows.len() as u32).to_le_bytes());
    blob.extend((32 + table.len() as u32).to_le_bytes());
    blob.extend(table);
    blob.extend(stream);
    blob
}

fn decoded(blob: &[u8]) -> Result<String, ExtractError> {
    InternalSourceMap::parse(blob)?.to_vlq()
}

fn reason(result: Result<String, ExtractError>) -> &'static str {
    match result {
        Err(ExtractError::SourceMapParseFailed { reason }) => reason,
        other => panic!("{other:?}"),
    }
}

#[test]
fn a_window_is_decoded() {
    let blob = map(&[&[
        (0, 0, 0, 0, 0),
        (0, 5, 0, 1, 2),
        (1, 3, 0, 2, 5),
        (4, 0, 1, 2, 0),
        (4, 16, 1, 2, 16),
    ]]);
    assert_eq!(decoded(&blob).unwrap(), "AAAA,KACE;GACG;;;ACAL,gBAAgB");
}

#[test]
fn windows_follow_one_another() {
    let blob = map(&[
        &[(0, 2, 0, 0, 0), (0, 4, 0, 0, 2)],
        &[(2, 1, 1, 7, 7)],
        &[(2, 9, 0, 6, 6)],
    ]);
    assert_eq!(decoded(&blob).unwrap(), "EAAA,EAAE;;CCOK,QDDD");
}

#[test]
fn no_windows_give_no_mappings() {
    assert_eq!(decoded(&map(&[])).unwrap(), "");
}

#[test]
fn earlier_lines_give_no_line_breaks() {
    let blob = map(&[&[(3, 0, 0, 0, 0)], &[(1, 4, 0, 0, 0)]]);
    assert_eq!(decoded(&blob).unwrap(), ";;;AAAA,IAAA");
}

#[test]
fn a_window_counts_up_to_64_mappings() {
    let mappings: Vec<Mapping> = (0..64).map(|i| (i, 0, 0, i, 0)).collect();
    let mut blob = map(&[&mappings]);
    let expected = format!("AAAA{}", ";AACA".repeat(63));
    assert_eq!(decoded(&blob).unwrap(), expected);
    blob[56] = 200;
    assert_eq!(decoded(&blob).unwrap(), expected);
    blob[56] = 2;
    assert_eq!(decoded(&blob).unwrap(), "AAAA;AACA");
    blob[56] = 0;
    assert_eq!(decoded(&blob).unwrap(), "AAAA");
}

#[test]
fn headers_that_are_refused() {
    let good = map(&[&[(0, 0, 0, 0, 0)]]);
    assert_eq!(decoded(&good).unwrap(), "AAAA");
    assert_eq!(reason(decoded(&good[..31])), "internal sourcemap blob too small");
    assert_eq!(
        reason(decoded(&good[..good.len() - 1])),
        "internal sourcemap length mismatch"
    );
    let mut bad = good.clone();
    bad[28] = 55;
    assert_eq!(
        reason(decoded(&bad)),
        "internal sourcemap stream offset out of bounds"
    );
    bad[28] = good.len() as u8 + 1;
    assert_eq!(
        reason(decoded(&bad)),
        "internal sourcemap stream offset out of bounds"
    );
    bad[28] = good.len() as u8;
    assert_eq!(
        reason(decoded(&bad)),
        "internal sourcemap missing stream tail pad"
    );
}

#[test]
fn windows_that_are_refused() {
    let good = map(&[&[(0, 0, 0, 0, 0), (3, 1, 1, 1, 1), (5, 2, 0, 1, 1)]]);
    assert_eq!(decoded(&good).unwrap(), "AAAA;;;CCCC;;EDAA");
    let stream = 56;
    let with = |changes: &[(usize, u8)]| {
        let mut blob = good.clone();
        for (at, byte) in changes {
            blob[*at] = *byte;
        }
        reason(decoded(&blob))
    };
    // The sync entry points behind the last whole window header.
    assert_eq!(with(&[(40, 60)]), "internal sourcemap window header out of bounds");
    // The lanes leave the stream.
    assert_eq!(with(&[(stream + 3, 1)]), "internal sourcemap window sections out of bounds");
    // The column lane swallows the rest of the stream, terminator included.
    let rest = (good.len() - stream - 32) as u8;
    assert_eq!(
        with(&[(stream + 2, rest), (stream + 4, 0), (stream + 6, 0)]),
        "internal sourcemap gen-line exception missing terminator"
    );
    // Nothing is left for the source mask.
    assert_eq!(
        with(&[(stream + 1, 8), (stream + 2, rest - 7), (stream + 4, 0), (stream + 6, 0)]),
        "internal sourcemap source-index mask out of bounds"
    );
}

#[test]
fn differences_that_are_refused() {
    let good = map(&[&[(0, 0, 0, 0, 0), (0, 1, 0, 1, 1)]]);
    assert_eq!(decoded(&good).unwrap(), "AAAA,CACC");
    let mut bad = good.clone();
    bad[56] = 9;
    assert_eq!(reason(decoded(&bad)), "internal sourcemap varint out of bounds");
    let mut long = map(&[&[(0, 0, 0, 0, 0), (0, -2_000_000_000, 0, 1, 7)]]);
    let lane = 56 + 32;
    long[lane + 4] |= 0x80;
    assert_eq!(reason(decoded(&long)), "internal sourcemap varint too long");
}

#[test]
fn sync_entries_are_read_by_index() {
    let blob = map(&[&[(1, 2, 3, 4, 5)], &[(-6, 7, 8, 9, 10)]]);
    let map = InternalSourceMap::parse(&blob).unwrap();
    let entry = map.sync_entry(1).unwrap();
    assert_eq!(entry.generated_line, -6);
    assert_eq!(entry.byte_offset, 32);
    let state: MapState = entry.to_state();
    assert_eq!(
        (
            state.generated_line,
            state.generated_column,
            state.source_index,
            state.original_line,
            state.original_column
        ),
        (-6, 7, 8, 9, 10)
    );
    assert_eq!(map.stream().len(), 65);
    assert!(matches!(
        map.sync_entry(1000),
        Err(ExtractError::SourceMapParseFailed { reason: "internal sourcemap u32 out of bounds" })
    ));
    assert!(matches!(
        map.sync_entry(usize::MAX / 24),
        Err(ExtractError::SourceMapParseFailed { reason: "internal sourcemap sync entry overflow" })
    ));
}

#[test]
fn a_reader_steps_through_a_window() {
    let bytes = window(&[(0, 0, 0, 0, 0), (0, 4, 0, 2, 4), (7, 1, 2, 9, 4)]);
    let mut reader = WindowReader::parse(&bytes, 0).unwrap();
    let mut state = MapState::default();
    assert!(!reader.done());
    reader.next(&mut state).unwrap();
    assert_eq!((state.generated_line, state.generated_column), (0, 4));
    assert_eq!((state.source_index, state.original_line, state.original_column), (0, 2, 4));
    assert!(!reader.done());
    reader.next(&mut state).unwrap();
    assert_eq!((state.generated_line, state.generated_column), (7, 1));
    assert_eq!((state.source_index, state.original_line, state.original_column), (2, 9, 4));
    assert!(reader.done());
}

#[test]
fn a_failed_step_counts_and_keeps_the_mapping() {
    let mut bytes = vec![0u8; 32];
    bytes[0] = 2;
    let mut reader = WindowReader::parse(&bytes, 0).unwrap();
    let mut state = MapState::default();
    state.generated_column = 5;
    assert!(!reader.done());
    assert!(matches!(
        reader.next(&mut state),
        Err(ExtractError::SourceMapParseFailed {
            reason: "internal sourcemap varint out of bounds"
        })
    ));
    assert!(reader.done());
    assert_eq!((state.generated_line, state.generated_column), (0, 5));
    assert_eq!((state.source_index, state.original_line, state.original_column), (0, 0, 0));
}

#[test]
fn bits_and_numbers() {
    let bytes = [0b1000_0001u8, 0b0000_0010, 0xff, 0xff, 0xff, 0xff, 0x01, 0x00, 0x80];
    assert!(test_bit(&bytes, 0, 0).unwrap());
    assert!(!test_bit(&bytes, 0, 1).unwrap());
    assert!(test_bit(&bytes, 0, 7).unwrap());
    assert!(test_bit(&bytes, 0, 9).unwrap());
    assert!(test_bit(&bytes, 1, 1).unwrap());
    assert!(matches!(
        test_bit(&bytes, 9, 0),
        Err(ExtractError::SourceMapParseFailed {
            reason: "internal sourcemap bit mask out of bounds"
        })
    ));
    assert_eq!(read_u16(&bytes, 1).unwrap(), 0xff02);
    assert_eq!(read_u32(&bytes, 2).unwrap(), u32::MAX);
    assert_eq!(read_i32(&bytes, 2).unwrap(), -1);
    assert_eq!(read_i32(&bytes, 5).unwrap(), -0x7fff_fe01);
    assert_eq!(read_u64(&bytes, 0).unwrap(), 0x0001_ffff_ffff_0281);
    assert!(read_u16(&bytes, 8).is_err());
    assert!(read_u32(&bytes, 6).is_err());
    assert!(read_u64(&bytes, 2).is_err());
    assert!(read_u16(&bytes, usize::MAX).is_err());
}

#[test]
fn commas_depend_on_the_last_character() {
    let state = MapState {
        generated_line: 1,
        generated_column: 1,
        source_index: 0,
        original_line: 0,
        original_column: 1,
    };
    let written = |text: &str, line: i32| {
        let mut out = text.to_string();
        let mut previous = MapState::default();
        let mut line = line;
        emit_vlq(&state, &mut previous, &mut line, &mut out);
        assert_eq!(line, 1);
        assert_eq!(previous.generated_column, 1);
        out
    };
    assert_eq!(written("", 1), "CAAC");
    assert_eq!(written(";", 1), ";CAAC");
    assert_eq!(written("AAAA", 1), "AAAA,CAAC");
    assert_eq!(written("AAAA;", 1), "AAAA;CAAC");
    assert_eq!(written("AAAA", 0), "AAAA;CAAC");
    assert_eq!(written("\0", 1), "\0CAAC");
    assert_eq!(written("\u{e9}", 1), "\u{e9},CAAC");
    assert_eq!(written("\u{43b}", 1), "\u{43b},CAAC");
}

/// Reads a standard `mappings` string.
fn read_mappings(text: &str) -> Vec<Mapping> {
    const DIGITS: &str = "ABCDEFGHIJKLMNOPQRSTUVWXYZabcdefghijklmnopqrstuvwxyz0123456789+/";
    let mut mappings = Vec::new();
    let (mut source, mut original_line, mut original_column) = (0, 0, 0);
    for (line, segments) in text.split(';').enumerate() {
        let mut column = 0;
        for segment in segments.split(',').filter(|segment| !segment.is_empty()) {
            let mut fields = Vec::new();
            let (mut value, mut shift) = (0u64, 0);
            for ch in segment.chars() {
                let digit = DIGITS.find(ch).unwrap() as u64;
                value |= (digit & 31) << shift;
                shift += 5;
                if digit & 32 == 0 {
                    let magnitude = (value >> 1) as i32;
                    fields.push(if value & 1 == 0 { magnitude } else { -magnitude });
                    value = 0;
                    shift = 0;
                }
            }
            column += fields[0];
            source += fields[1];
            original_line += fields[2];
            original_column += fields[3];
            mappings.push((line as i32, column, source, original_line, original_column));
        }
    }
    mappings
}

#[test]
fn mappings_read_back() {
    let first = [
        (0, 7, 0, 3, 1),
        (0, 900, 2, 0, 1_000_000),
        (5, 0, 1, 2_000_000_000, 0),
        (6, 12, 1, 2_000_000_001, 12),
        (6, 13, 0, 5, 13),
    ];
    let second = [(6, 40, 3, 0, 0), (7, 0, 3, 0, 0), (1000, 1, 3, 993, 1)];
    let blob = map(&[&first, &second]);
    let text = decoded(&blob).unwrap();
    let all: Vec<Mapping> = first.into_iter().chain(second).collect();
    assert_eq!(read_mappings(&text), all);
}
