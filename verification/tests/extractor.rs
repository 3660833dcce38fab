use bun_binary_extractor::containers::{
    detect_embed_method, find_elf_bun_section, find_macho_bun_section, find_pe_bun_section,
};
use bun_binary_extractor::extractor::{
    checked_offset, detect_module_struct_size, extract_argv, extract_enum_fields, parse_modules,
    read_string_pointer,
};
use bun_binary_extractor::format::{Offsets, StringPointer};
use bun_binary_extractor::plan::{plan_module, ExtractOptions, ModulePlan, OutputKind};
use bun_binary_extractor::report::{module_line, summary_lines};
use bun_binary_extractor::{
    BunBinary, BunVersion, EmbedMethod, Encoding, ExtractError, FileSide, Loader, ModuleFormat,
};

const TRAILER: &[u8; 16] = b"\n---- Bun! ----\n";

/// A module as it goes into a payload: name, contents, sourcemap, bytecode, module info,
/// origin of the bytecode, and the four tags.
#[derive(Clone, Default)]
struct Entry {
    name: Vec<u8>,
    contents: Vec<u8>,
    sourcemap: Vec<u8>,
    bytecode: Vec<u8>,
    module_info: Vec<u8>,
    origin: Vec<u8>,
    tags: [u8; 4],
}

fn entry(name: &str, contents: &str, tags: [u8; 4]) -> Entry {
    Entry {
        name: name.as_bytes().to_vec(),
        contents: contents.as_bytes().to_vec(),
        tags,
        ..Entry::default()
    }
}

struct Graph {
    payload: Vec<u8>,
    offsets: [u8; 32],
}

/// A payload with records of 36 or 52 bytes, the tags at their end.
fn graph(entries: &[Entry], size: usize, entry_point: u32, argv: &str, flags: u32) -> Graph {
    let mut payload = Vec::new();
    let mut table = Vec::new();
    for e in entries {
        let mut fields = vec![&e.name, &e.contents, &e.sourcemap, &e.bytecode];
        if size == 52 {
            fields.push(&e.module_info);
            fields.push(&e.origin);
        }
        for field in fields {
            let offset = if field.is_empty() { 0 } else { payload.len() as u32 };
            table.extend(offset.to_le_bytes());
            table.extend((field.len() as u32).to_le_bytes());
            payload.extend(field);
        }
        table.extend(e.tags);
    }
    let argv_offset = payload.len() as u32;
    payload.extend(argv.as_bytes());
    let modules_offset = payload.len() as u32;
    payload.extend(&table);
    let mut offsets = Vec::new();
    offsets.extend((payload.len() as u64).to_le_bytes());
    offsets.extend(modules_offset.to_le_bytes());
    offsets.extend((table.len() as u32).to_le_bytes());
    offsets.extend(entry_point.to_le_bytes());
    offsets.extend(argv_offset.to_le_bytes());
    offsets.extend((argv.len() as u32).to_le_bytes());
    offsets.extend(flags.to_le_bytes());
    Graph { payload, offsets: offsets.try_into().unwrap() }
}

/// The payload behind a program.
fn appended(program: &[u8], graph: &Graph) -> Vec<u8> {
    let mut file = program.to_vec();
    file.extend(&graph.payload);
    file.extend(graph.offsets);
    file.extend(TRAILER);
    let size = file.len() as u64 + 8;
    file.extend(size.to_le_bytes());
    file
}

/// The payload as a section holds it.
fn section(graph: &Graph) -> Vec<u8> {
    let mut bytes = Vec::new();
    bytes.extend((graph.payload.len() as u64 + 48).to_le_bytes());
    bytes.extend(&graph.payload);
    bytes.extend(graph.offsets);
    bytes.extend(TRAILER);
    bytes
}

fn put(file: &mut Vec<u8>, at: usize, bytes: &[u8]) {
    if file.len() < at + bytes.len() {
        file.resize(at + bytes.len(), 0);
    }
    file[at..at + bytes.len()].copy_from_slice(bytes);
}

/// An ELF file with a string table and a section of this name. The last bytes keep a trailer
/// away from the end of the file.
fn elf(name: &str, content: &[u8]) -> Vec<u8> {
    let names = format!("\0.shstrtab\0{name}\0");
    let names_at = 64;
    let content_at = names_at + names.len();
    let table = content_at + content.len();
    let mut file = b"\x7fELF\x02".to_vec();
    put(&mut file, 40, &(table as u64).to_le_bytes());
    put(&mut file, 58, &64u16.to_le_bytes());
    put(&mut file, 60, &3u16.to_le_bytes());
    put(&mut file, 62, &1u16.to_le_bytes());
    put(&mut file, names_at, names.as_bytes());
    put(&mut file, content_at, content);
    put(&mut file, table + 192, &[0; 9]);
    put(&mut file, table + 64, &1u32.to_le_bytes());
    put(&mut file, table + 64 + 24, &(names_at as u64).to_le_bytes());
    put(&mut file, table + 64 + 32, &(names.len() as u64).to_le_bytes());
    put(&mut file, table + 128, &11u32.to_le_bytes());
    put(&mut file, table + 128 + 24, &(content_at as u64).to_le_bytes());
    put(&mut file, table + 128 + 32, &(content.len() as u64).to_le_bytes());
    file
}

/// A PE file with two sections.
fn pe(name: &[u8; 8], content: &[u8]) -> Vec<u8> {
    let header = 0x80;
    let table = header + 24 + 16;
    let content_at = table + 80;
    let mut file = b"MZ".to_vec();
    put(&mut file, 0x3c, &(header as u32).to_le_bytes());
    put(&mut file, header, b"PE\0\0");
    put(&mut file, header + 6, &2u16.to_le_bytes());
    put(&mut file, header + 20, &16u16.to_le_bytes());
    put(&mut file, table, b".text\0\0\0");
    put(&mut file, table + 40, name);
    put(&mut file, table + 56, &(content.len() as u32).to_le_bytes());
    put(&mut file, table + 60, &(content_at as u32).to_le_bytes());
    put(&mut file, content_at, content);
    file.extend([0; 9]);
    file
}

/// A Mach-O file with a command to skip, and a segment with two sections.
fn macho(segment: &[u8], section: &[u8], content: &[u8]) -> Vec<u8> {
    let content_at = 32 + 16 + 72 + 160;
    let mut file = 0xfeed_facfu32.to_le_bytes().to_vec();
    put(&mut file, 16, &2u32.to_le_bytes());
    put(&mut file, 32, &1u32.to_le_bytes());
    put(&mut file, 36, &16u32.to_le_bytes());
    put(&mut file, 48, &0x19u32.to_le_bytes());
    put(&mut file, 52, &232u32.to_le_bytes());
    put(&mut file, 56, segment);
    put(&mut file, 48 + 64, &2u32.to_le_bytes());
    put(&mut file, 120, b"__other");
    put(&mut file, 200, section);
    put(&mut file, 200 + 48, &(content_at as u32).to_le_bytes());
    put(&mut file, content_at, content);
    file.extend([0; 9]);
    file
}

fn sample() -> Vec<Entry> {
    let mut first = entry("/$bunfs/root/index.js", "console.log(1)", [1, 1, 1, 0]);
    first.sourcemap = b"map".to_vec();
    first.bytecode = b"code".to_vec();
    let second = entry("/$bunfs/root/notes.md", "# hi", [2, 20, 0, 1]);
    let third = entry("/$bunfs/root/empty.json5", "", [0, 19, 2, 0]);
    vec![first, second, third]
}

fn failure(result: Result<BunBinary, ExtractError>) -> ExtractError {
    match result {
        Ok(_) => panic!("parsed"),
        Err(error) => error,
    }
}

#[test]
fn legacy_records_are_read() {
    let file = appended(&[7; 100], &graph(&sample(), 36, 1, "--flag x", 0));
    let binary = BunBinary::parse(&file).unwrap();
    assert_eq!(binary.embed_method, EmbedMethod::Appended);
    assert_eq!(binary.payload_base, 100);
    assert_eq!(binary.module_struct_size, 36);
    assert_eq!(binary.version, BunVersion::V1_0_1_1);
    assert_eq!(binary.argv.as_deref(), Some("--flag x"));
    assert_eq!(binary.modules.len(), 3);
    let first = &binary.modules[0];
    assert_eq!(first.index, 0);
    assert_eq!(first.name, "/$bunfs/root/index.js");
    assert_eq!(first.contents, b"console.log(1)");
    assert_eq!(first.sourcemap.as_deref(), Some(&b"map"[..]));
    assert_eq!(first.bytecode.as_deref(), Some(&b"code"[..]));
    assert_eq!(first.module_info, None);
    assert_eq!(first.bytecode_origin_path, None);
    assert_eq!(first.encoding, Encoding::Latin1);
    assert_eq!(first.loader, Loader::Js);
    assert_eq!(first.module_format, ModuleFormat::Esm);
    assert_eq!(first.side, FileSide::Server);
    assert!(!first.is_entry_point);
    let second = &binary.modules[1];
    assert!(second.is_entry_point);
    assert_eq!(second.sourcemap, None);
    assert_eq!(second.bytecode, None);
    assert_eq!(second.encoding, Encoding::Utf8);
    assert_eq!(second.loader, Loader::Md);
    assert_eq!(second.side, FileSide::Client);
    let third = &binary.modules[2];
    assert_eq!(third.index, 2);
    assert!(third.contents.is_empty());
    assert_eq!(third.loader, Loader::Json5);
    assert_eq!(third.module_format, ModuleFormat::Cjs);
}

#[test]
fn modern_records_are_read() {
    let mut entries = sample();
    entries[1].bytecode = b"bytes".to_vec();
    entries[1].module_info = b"info".to_vec();
    entries[1].origin = b"/src/notes.md".to_vec();
    entries[2].origin = b"\xff".to_vec();
    let file = appended(b"", &graph(&entries, 52, 0, "", 0));
    let binary = BunBinary::parse(&file).unwrap();
    assert_eq!(binary.module_struct_size, 52);
    assert_eq!(binary.version, BunVersion::V1_2_1_3);
    assert_eq!(binary.argv.as_deref(), Some(""));
    let second = &binary.modules[1];
    assert_eq!(second.bytecode.as_deref(), Some(&b"bytes"[..]));
    assert_eq!(second.module_info.as_deref(), Some(&b"info"[..]));
    assert_eq!(second.bytecode_origin_path.as_deref(), Some("/src/notes.md"));
    assert_eq!(second.loader, Loader::Md);
    assert_eq!(binary.modules[0].loader, Loader::Js);
    assert_eq!(binary.modules[0].module_info, None);
    assert_eq!(binary.modules[2].loader, Loader::Json5);
    assert_eq!(binary.modules[2].bytecode_origin_path, None);
}

#[test]
fn sections_are_read_from_every_container() {
    let graph = graph(&sample(), 52, 2, "", 5);
    let content = section(&graph);
    for file in [
        elf(".bun", &content),
        pe(b".bun\0\0\0\0", &content),
        macho(b"__BUN", b"__bun", &content),
    ] {
        let binary = BunBinary::parse(&file).unwrap();
        assert_eq!(binary.version, BunVersion::V1_4Plus);
        assert_eq!(binary.modules.len(), 3);
        assert_eq!(binary.modules[0].contents, b"console.log(1)");
        assert!(binary.modules[2].is_entry_point);
        assert!(binary.offsets.decoded_flags().disable_default_env_files);
        let offset = binary.payload_base - 8;
        assert_eq!(&file[offset..offset + content.len()], content);
        match binary.embed_method {
            EmbedMethod::Appended => panic!("appended"),
            EmbedMethod::ElfSection { section_offset }
            | EmbedMethod::PeSection { section_offset }
            | EmbedMethod::MachoSection { section_offset } => assert_eq!(section_offset, offset),
        }
    }
}

#[test]
fn a_trailer_comes_before_a_section() {
    let inner = graph(&sample(), 52, 0, "", 0);
    let program = elf(".bun", &section(&inner));
    let outer = graph(&sample()[..1], 36, 0, "", 0);
    let binary = BunBinary::parse(&appended(&program, &outer)).unwrap();
    assert_eq!(binary.embed_method, EmbedMethod::Appended);
    assert_eq!(binary.modules.len(), 1);
}

#[test]
fn bytes_in_front_move_the_payload_only() {
    let file = appended(&[7; 10], &graph(&sample(), 36, 1, "--flag x", 3));
    let alone = BunBinary::parse(&file).unwrap();
    let inner = graph(&sample(), 52, 0, "", 0);
    for prefix in [vec![], vec![0x7f; 1], elf(".bun", &section(&inner)), file.clone()] {
        let whole = [prefix.clone(), file.clone()].concat();
        let moved = BunBinary::parse(&whole).unwrap();
        assert_eq!(moved.payload_base, prefix.len() + alone.payload_base);
        assert_eq!(moved.embed_method, alone.embed_method);
        assert_eq!(format!("{:?}", moved.offsets), format!("{:?}", alone.offsets));
        assert_eq!(moved.module_struct_size, alone.module_struct_size);
        assert_eq!(format!("{:?}", moved.modules), format!("{:?}", alone.modules));
        assert_eq!(moved.version, alone.version);
        assert_eq!(moved.argv, alone.argv);
    }
}

#[test]
fn files_without_a_payload_are_refused() {
    assert!(matches!(
        failure(BunBinary::parse(&[0; 59])),
        ExtractError::FileTooSmall { size: 59 }
    ));
    assert!(matches!(failure(BunBinary::parse(&[0; 60])), ExtractError::TrailerNotFound));
    let content = section(&graph(&sample(), 52, 0, "", 0));
    for file in [
        elf(".bux", &content),
        pe(b".bun\x01\0\0\0", &content),
        macho(b"__BUN", b"__bux", &content),
        macho(b"__BUX", b"__bun", &content),
    ] {
        assert!(matches!(failure(BunBinary::parse(&file)), ExtractError::TrailerNotFound));
    }
}

#[test]
fn appended_offsets_are_checked() {
    let good = appended(&[0; 10], &graph(&sample(), 52, 0, "", 0));
    let end = good.len();
    let with = |at: usize, value: u64| {
        let mut file = good.clone();
        file[at..at + 8].copy_from_slice(&value.to_le_bytes());
        failure(BunBinary::parse(&file))
    };
    assert!(matches!(with(end - 56, 31), ExtractError::InvalidOffsets { byte_count: 31 }));
    let too_long = end as u64 - 55;
    assert!(
        matches!(with(end - 56, too_long), ExtractError::InvalidOffsets { byte_count } if byte_count == too_long)
    );
    assert!(matches!(
        with(end - 56, u64::MAX),
        ExtractError::InvalidOffsets { byte_count: u64::MAX }
    ));
    let payload = end as u64 - 66;
    assert!(
        matches!(with(end - 8, payload), ExtractError::InvalidOffsets { byte_count } if byte_count == payload)
    );
}

#[test]
fn section_lengths_are_checked() {
    let content = section(&graph(&sample(), 52, 0, "", 0));
    let with = |length: u64| {
        let mut content = content.clone();
        content[..8].copy_from_slice(&length.to_le_bytes());
        failure(BunBinary::parse(&pe(b".bun\0\0\0\0", &content)))
    };
    assert!(matches!(with(47), ExtractError::InvalidOffsets { byte_count: 0 }));
    assert!(matches!(with(100_000), ExtractError::InvalidOffsets { byte_count: 100_000 }));
    assert!(matches!(with(u64::MAX), ExtractError::OffsetOverflow));
    let mut file = elf(".bun", &content);
    let len = file.len() as u64;
    let table = u64::from_le_bytes(file[40..48].try_into().unwrap()) as usize;
    put(&mut file, table + 128 + 24, &(len - 7).to_le_bytes());
    assert!(matches!(
        failure(BunBinary::parse(&file)),
        ExtractError::InvalidOffsets { byte_count: 0 }
    ));
    put(&mut file, table + 128 + 24, &(u64::MAX - 7).to_le_bytes());
    assert!(matches!(failure(BunBinary::parse(&file)), ExtractError::OffsetOverflow));
}

#[test]
fn entry_points_are_checked() {
    let file = appended(b"", &graph(&sample(), 52, 3, "", 0));
    let payload = file.len() as u64 - 56;
    assert!(
        matches!(failure(BunBinary::parse(&file)), ExtractError::InvalidOffsets { byte_count } if byte_count == payload)
    );
}

#[test]
fn strings_are_checked() {
    let graph = graph(&sample(), 52, 0, "", 0);
    let table = graph.payload.len() - 3 * 52;
    let with = |at: usize, bytes: &[u8]| {
        let mut file = appended(b"", &graph);
        file[table + at..table + at + bytes.len()].copy_from_slice(bytes);
        failure(BunBinary::parse(&file))
    };
    // The contents of the second module leave the payload.
    let offset = u32::from_le_bytes(graph.payload[table + 60..table + 64].try_into().unwrap());
    let length = graph.payload.len() as u32 - offset + 1;
    assert!(matches!(
        with(64, &length.to_le_bytes()),
        ExtractError::StringOutOfBounds { offset: o, length: l, payload_size }
            if o == offset && l == length && payload_size == graph.payload.len()
    ));
    // So does the sourcemap of the first one.
    assert!(matches!(
        with(16, &u32::MAX.to_le_bytes()),
        ExtractError::StringOutOfBounds { offset: u32::MAX, length: 3, .. }
    ));
    // A name outside Bun's root leaves no size for the records.
    assert!(matches!(
        with(4, &2u32.to_le_bytes()),
        ExtractError::ModuleSizeDetectionFailed { modules_length: 156 }
    ));
}

#[test]
fn record_sizes_are_detected() {
    let detect = |entries: &[Entry], size: usize| {
        let graph = graph(entries, size, 0, "", 0);
        let table = graph.payload.len() - entries.len() * size;
        detect_module_struct_size(
            &graph.payload,
            0,
            table as u32,
            (entries.len() * size) as u32,
        )
    };
    assert_eq!(detect(&sample(), 36).unwrap(), 36);
    assert_eq!(detect(&sample(), 52).unwrap(), 52);
    // Two small records look like one large one.
    assert_eq!(detect(&sample()[..2], 36).unwrap(), 72);
    assert!(matches!(
        detect(&[entry("/bunfs/a", "", [0; 4])], 36),
        Err(ExtractError::ModuleSizeDetectionFailed { modules_length: 36 })
    ));
    assert!(matches!(
        detect(&[], 36),
        Err(ExtractError::ModuleSizeDetectionFailed { modules_length: 0 })
    ));
    assert!(matches!(
        detect_module_struct_size(&[], usize::MAX, 1, 36),
        Err(ExtractError::OffsetOverflow)
    ));
}

#[test]
fn tags_are_looked_for_in_three_places() {
    let mut data = vec![0xffu8; 200];
    let defaults = (Encoding::Binary, Loader::File, ModuleFormat::Unset, FileSide::Server);
    let found = (Encoding::Utf8, Loader::Ts, ModuleFormat::Esm, FileSide::Client);
    assert_eq!(extract_enum_fields(&data, 0, 72), defaults);
    for place in [32, 68, 64] {
        data[10 + place..14 + place].copy_from_slice(&[2, 2, 1, 1]);
        assert_eq!(extract_enum_fields(&data, 10, 72), found);
        data[10 + place..14 + place].copy_from_slice(&[0xff; 4]);
    }
    data[32..36].copy_from_slice(&[2, 2, 1, 1]);
    assert_eq!(extract_enum_fields(&data, 0, 35), defaults);
    assert_eq!(extract_enum_fields(&data, 0, 36), found);
    data[68..72].copy_from_slice(&[0, 0, 0, 0]);
    assert_eq!(extract_enum_fields(&data, 0, 72), found);
    for bad in [[3, 2, 1, 1], [2, 21, 1, 1], [2, 2, 3, 1], [2, 2, 1, 2]] {
        data[32..36].copy_from_slice(&bad);
        assert_eq!(extract_enum_fields(&data, 0, 36), defaults);
    }
    assert_eq!(extract_enum_fields(&data, usize::MAX, 72), defaults);
    // In the packed layout with six pointers the last four bytes come first.
    data[32..36].copy_from_slice(&[0, 0, 0, 0]);
    data[48..52].copy_from_slice(&[2, 2, 1, 1]);
    assert_eq!(extract_enum_fields(&data, 0, 52), found);
}

#[test]
fn pointers_stay_inside_the_payload() {
    let data = b"0123456789";
    let read = |base: usize, offset: u32, length: u32, size: usize| {
        read_string_pointer(data, base, &StringPointer { offset, length }, size)
            .map(|bytes| bytes.to_vec())
    };
    assert_eq!(read(2, 3, 4, 7).unwrap(), b"5678");
    assert_eq!(read(10, 0, 0, 0).unwrap(), b"");
    assert!(matches!(
        read(2, 3, 4, 6),
        Err(ExtractError::StringOutOfBounds { offset: 3, length: 4, payload_size: 6 })
    ));
    assert!(read(4, 3, 4, 100).is_err());
    assert!(read(usize::MAX, 3, 4, 100).is_err());
}

#[test]
fn argv_must_be_text_inside_the_data() {
    let mut offsets = Offsets::from_bytes(&[0; 32]).unwrap();
    offsets.argv_offset = 2;
    offsets.argv_length = 3;
    assert_eq!(extract_argv(b"xx--a", 0, &offsets).as_deref(), Some("--a"));
    assert_eq!(extract_argv(b"yxx--a", 1, &offsets).as_deref(), Some("--a"));
    assert_eq!(extract_argv(b"xx--", 0, &offsets), None);
    assert_eq!(extract_argv(b"xx\xff--", 0, &offsets), None);
    assert_eq!(extract_argv(b"xx--a", usize::MAX, &offsets), None);
}

#[test]
fn offsets_do_not_wrap() {
    assert_eq!(checked_offset(3, 4).unwrap(), 7);
    assert!(matches!(checked_offset(usize::MAX, 1), Err(ExtractError::OffsetOverflow)));
}

#[test]
fn module_tables_are_checked() {
    let graph = graph(&sample(), 36, 0, "", 0);
    let mut offsets = Offsets::from_bytes(&graph.offsets).unwrap();
    let parse = |data: &[u8], base: usize, offsets: &Offsets| parse_modules(data, base, offsets, 36);
    assert_eq!(parse(&graph.payload, 0, &offsets).unwrap().len(), 3);
    let cut = graph.payload.len() - 36 + 15;
    assert!(matches!(
        parse(&graph.payload[..cut], 0, &offsets),
        Err(ExtractError::CorruptModuleGraph { index: 2 })
    ));
    assert!(matches!(
        parse(&graph.payload, usize::MAX, &offsets),
        Err(ExtractError::OffsetOverflow)
    ));
    let mut payload = graph.payload.clone();
    payload[0] = 0xff;
    assert!(matches!(
        parse(&payload, 0, &offsets),
        Err(ExtractError::InvalidModuleName { index: 0 })
    ));
    offsets.modules_length = 35;
    assert!(parse(&graph.payload, 0, &offsets).unwrap().is_empty());
}

#[test]
fn elf_headers_are_checked() {
    let good = elf(".bun", b"content");
    let table = u64::from_le_bytes(good[40..48].try_into().unwrap()) as usize;
    assert_eq!(
        find_elf_bun_section(&good).unwrap(),
        EmbedMethod::ElfSection { section_offset: table - 7 }
    );
    let with = |at: usize, bytes: &[u8]| {
        let mut file = good.clone();
        put(&mut file, at, bytes);
        find_elf_bun_section(&file).unwrap_err()
    };
    assert!(matches!(
        find_elf_bun_section(&good[..63]).unwrap_err(),
        ExtractError::TrailerNotFound
    ));
    assert!(matches!(with(0, b"X"), ExtractError::TrailerNotFound));
    assert!(matches!(with(4, &[1]), ExtractError::InvalidElf));
    assert!(matches!(with(40, &0u64.to_le_bytes()), ExtractError::BunSectionNotFound));
    assert!(matches!(with(60, &[0, 0]), ExtractError::BunSectionNotFound));
    assert!(matches!(with(40, &u64::MAX.to_le_bytes()), ExtractError::InvalidElf));
    assert!(matches!(with(62, &[0xff, 0xff]), ExtractError::InvalidElf));
    assert!(matches!(with(table + 64 + 32, &[0xff, 0xff, 0xff]), ExtractError::InvalidElf));
    // Headers beyond the end of the file end the search.
    let mut cut = good.clone();
    cut.truncate(table + 191);
    assert!(matches!(
        find_elf_bun_section(&cut).unwrap_err(),
        ExtractError::BunSectionNotFound
    ));
    // A name that starts behind the string table is no name.
    assert!(matches!(with(table + 128, &[0xff]), ExtractError::BunSectionNotFound));
}

#[test]
fn pe_headers_are_checked() {
    let good = pe(b".bun\0\0\0\0", b"content");
    let content_at = 0x80 + 24 + 16 + 80;
    assert_eq!(
        find_pe_bun_section(&good).unwrap(),
        EmbedMethod::PeSection { section_offset: content_at }
    );
    let with = |at: usize, bytes: &[u8]| {
        let mut file = good.clone();
        put(&mut file, at, bytes);
        find_pe_bun_section(&file).unwrap_err()
    };
    assert!(matches!(
        find_pe_bun_section(&good[..63]).unwrap_err(),
        ExtractError::TrailerNotFound
    ));
    assert!(matches!(with(1, b"X"), ExtractError::TrailerNotFound));
    assert!(matches!(with(0x80, b"X"), ExtractError::InvalidPe));
    assert!(matches!(with(0x3c, &[0xff, 0xff]), ExtractError::InvalidPe));
    assert!(matches!(with(0x86, &[1, 0]), ExtractError::BunSectionNotFound));
    // A section that leaves the file is passed over.
    assert!(matches!(
        with(content_at - 24, &[0xff, 0xff]),
        ExtractError::BunSectionNotFound
    ));
    // The optional header moves the table out of the file.
    assert!(matches!(with(0x80 + 20, &[0xff, 0xff]), ExtractError::BunSectionNotFound));
    let mut short = good.clone();
    short.truncate(0x80 + 5);
    assert!(matches!(find_pe_bun_section(&short).unwrap_err(), ExtractError::InvalidPe));
}

#[test]
fn macho_headers_are_checked() {
    let good = macho(b"__BUN", b"__bun", b"content");
    assert_eq!(
        find_macho_bun_section(&good).unwrap(),
        EmbedMethod::MachoSection { section_offset: 280 }
    );
    let with = |at: usize, bytes: &[u8]| {
        let mut file = good.clone();
        put(&mut file, at, bytes);
        find_macho_bun_section(&file).unwrap_err()
    };
    assert!(matches!(
        find_macho_bun_section(&good[..31]).unwrap_err(),
        ExtractError::TrailerNotFound
    ));
    assert!(matches!(with(0, &[0]), ExtractError::InvalidMachO));
    assert!(matches!(with(16, &[1]), ExtractError::BunSectionNotFound));
    assert!(matches!(with(36, &[7]), ExtractError::BunSectionNotFound));
    assert!(matches!(with(36, &[0xff, 0xff]), ExtractError::BunSectionNotFound));
    assert!(matches!(with(48, &[0x1a]), ExtractError::BunSectionNotFound));
    assert!(matches!(with(52, &[71]), ExtractError::BunSectionNotFound));
    assert!(matches!(with(48 + 64, &[1]), ExtractError::BunSectionNotFound));
    // A 32-bit header is four bytes shorter.
    let mut small = good.clone();
    small.drain(28..32);
    put(&mut small, 0, &0xfeed_faceu32.to_le_bytes());
    assert_eq!(
        find_macho_bun_section(&small).unwrap(),
        EmbedMethod::MachoSection { section_offset: 280 }
    );
}

#[test]
fn methods_are_detected() {
    assert!(matches!(detect_embed_method(b""), Err(ExtractError::TrailerNotFound)));
    let mut file = TRAILER.to_vec();
    file.extend([0; 8]);
    assert_eq!(detect_embed_method(&file).unwrap(), EmbedMethod::Appended);
    assert!(detect_embed_method(&file[1..]).is_err());
    assert_eq!(
        detect_embed_method(&macho(b"__BUN", b"__bun", b"content")).unwrap(),
        EmbedMethod::MachoSection { section_offset: 280 }
    );
}

fn options(js_only: bool, decode_sourcemaps: bool, extras: bool) -> ExtractOptions {
    ExtractOptions {
        js_only,
        decode_sourcemaps,
        extract_bytecode: extras,
        extract_module_info: extras,
    }
}

fn planned(plan: ModulePlan) -> Vec<(String, OutputKind)> {
    match plan {
        ModulePlan::Files(files) => {
            files.into_iter().map(|file| (file.path.join("/"), file.kind)).collect()
        }
        other => panic!("{other:?}"),
    }
}

#[test]
fn extraction_is_planned() {
    let mut entries = sample();
    entries[0].module_info = b"info".to_vec();
    entries[1].name = b"/$bunfs/root/../d/notes.md".to_vec();
    let binary = BunBinary::parse(&appended(b"", &graph(&entries, 52, 0, "", 0))).unwrap();
    assert_eq!(
        planned(plan_module(&binary.modules[0], &options(true, false, false))),
        [
            ("index.js".to_string(), OutputKind::Contents),
            ("index.js.map".to_string(), OutputKind::RawSourcemap)
        ]
    );
    assert_eq!(
        planned(plan_module(&binary.modules[0], &options(false, true, true))),
        [
            ("index.js".to_string(), OutputKind::Contents),
            ("index.js.map".to_string(), OutputKind::DecodedSourcemap),
            ("index.js.bytecode".to_string(), OutputKind::Bytecode),
            ("index.js.module_info".to_string(), OutputKind::ModuleInfo)
        ]
    );
    assert_eq!(
        planned(plan_module(&binary.modules[1], &options(false, true, true))),
        [("d/notes.md".to_string(), OutputKind::Contents)]
    );
    assert!(matches!(
        plan_module(&binary.modules[1], &options(true, false, false)),
        ModulePlan::Skipped
    ));
    let mut odd = binary.modules;
    odd[1].name = "/$bunfs/root/c:/x.mts".to_string();
    assert!(matches!(
        plan_module(&odd[1], &options(true, false, false)),
        ModulePlan::Unsafe
    ));
}

#[test]
fn modules_are_described() {
    let mut entries = sample();
    entries[0].module_info = b"info".to_vec();
    let binary = BunBinary::parse(&appended(b"", &graph(&entries, 52, 0, "", 0))).unwrap();
    assert_eq!(
        module_line(&binary.modules[0], "0.1"),
        "  [ 0] /$bunfs/root/index.js (JavaScript, 14 bytes, js, latin1, esm) [ENTRY] (sourcemap: 3 bytes) (bytecode: 0.1 MB) (module_info: 4 bytes)"
    );
    assert_eq!(
        module_line(&binary.modules[1], "0.1"),
        "  [ 1] /$bunfs/root/notes.md (Unknown, 4 bytes, md, utf8, none)"
    );
    let mut modules = binary.modules;
    modules[1].index = 123;
    assert!(module_line(&modules[1], "").starts_with("  [123] "));
}

#[test]
fn executables_are_described() {
    let file = appended(&[0; 300], &graph(&sample(), 52, 1, "-x", 0xa5));
    let binary = BunBinary::parse(&file).unwrap();
    assert_eq!(
        summary_lines(&binary),
        [
            "Detected version: Bun 1.4+",
            "Embed method: Appended (legacy)",
            "Payload base: 0x12c",
            "Module struct size: 52 bytes",
            "Module count: 3",
            "Entry point: 1",
            "Flags: 0x000000a5",
            "  disable_env_files: true",
            "  disable_bunfig: false",
            "  disable_tsconfig: true",
            "  disable_package_json: false",
            "Argv: -x",
        ]
    );
    let file = appended(b"", &graph(&sample()[..1], 36, 0, "\u{e9}", 0));
    let binary = BunBinary::parse(&file).unwrap();
    assert_eq!(summary_lines(&binary).len(), 7);
}
