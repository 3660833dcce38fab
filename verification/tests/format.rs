use bun_binary_extractor::format::{Offsets, StringPointer};
use bun_binary_extractor::{
    BunVersion, EmbedMethod, Encoding, FileSide, Loader, Module, ModuleFormat,
};

fn module(name: &str, loader: Loader) -> Module {
    Module {
        index: 0,
        name: name.to_string(),
        contents: Vec::new(),
        sourcemap: None,
        bytecode: None,
        module_info: None,
        bytecode_origin_path: None,
        encoding: Encoding::Utf8,
        loader,
        module_format: ModuleFormat::Esm,
        side: FileSide::Server,
        is_entry_point: false,
    }
}

#[test]
fn offsets_are_little_endian() {
    let mut data: Vec<u8> = (1..=32).collect();
    let offsets = Offsets::from_bytes(&data).unwrap();
    assert_eq!(offsets.byte_count, 0x0807_0605_0403_0201);
    assert_eq!(offsets.modules_offset, 0x0c0b_0a09);
    assert_eq!(offsets.modules_length, 0x100f_0e0d);
    assert_eq!(offsets.entry_point_id, 0x1413_1211);
    assert_eq!(offsets.argv_offset, 0x1817_1615);
    assert_eq!(offsets.argv_length, 0x1c1b_1a19);
    assert_eq!(offsets.flags, 0x201f_1e1d);
    data.push(0xff);
    assert_eq!(Offsets::from_bytes(&data).unwrap().flags, 0x201f_1e1d);
    assert!(Offsets::from_bytes(&data[..31]).is_none());
}

#[test]
fn string_pointers_are_little_endian() {
    let pointer = StringPointer::from_bytes(&[1, 2, 3, 4, 5, 6, 7, 8, 9]).unwrap();
    assert_eq!(pointer.offset, 0x0403_0201);
    assert_eq!(pointer.length, 0x0807_0605);
    assert!(StringPointer::from_bytes(&[0; 7]).is_none());
}

#[test]
fn flags_are_the_low_bits() {
    let decoded = |flags: u32| {
        let mut data = [0u8; 32];
        data[28..32].copy_from_slice(&flags.to_le_bytes());
        let flags = Offsets::from_bytes(&data).unwrap().decoded_flags();
        (
            flags.disable_default_env_files,
            flags.disable_autoload_bunfig,
            flags.disable_autoload_tsconfig,
            flags.disable_autoload_package_json,
        )
    };
    assert_eq!(decoded(0), (false, false, false, false));
    assert_eq!(decoded(1), (true, false, false, false));
    assert_eq!(decoded(2), (false, true, false, false));
    assert_eq!(decoded(4), (false, false, true, false));
    assert_eq!(decoded(8), (false, false, false, true));
    assert_eq!(decoded(0xffff_fff5), (true, false, true, false));
    assert_eq!(decoded(16), decoded(0));
}

#[test]
fn embed_methods_in_words() {
    assert_eq!(EmbedMethod::Appended.to_string(), "Appended (legacy)");
    assert_eq!(
        EmbedMethod::ElfSection { section_offset: 0x1f40 }.to_string(),
        "ELF .bun section (offset 0x1f40)"
    );
    assert_eq!(
        EmbedMethod::PeSection { section_offset: 0 }.to_string(),
        "PE .bun section (offset 0x0)"
    );
    assert_eq!(
        EmbedMethod::MachoSection { section_offset: 0xabcdef }.to_string(),
        "Mach-O __BUN/__bun section (offset 0xabcdef)"
    );
}

#[test]
fn versions_are_detected() {
    let detect = |method: EmbedMethod, size: usize, flags: u32| {
        BunVersion::detect(&method, size, flags)
    };
    assert_eq!(detect(EmbedMethod::Appended, 36, 0), BunVersion::V1_0_1_1);
    assert_eq!(detect(EmbedMethod::Appended, 40, 0), BunVersion::V1_2_1_3);
    assert_eq!(detect(EmbedMethod::Appended, 36, 1), BunVersion::V1_4Plus);
    for method in [
        EmbedMethod::ElfSection { section_offset: 1 },
        EmbedMethod::PeSection { section_offset: 1 },
        EmbedMethod::MachoSection { section_offset: 1 },
    ] {
        assert_eq!(detect(method, 36, 0), BunVersion::V1_4Plus);
    }
    assert_eq!(BunVersion::V1_0_1_1.to_string(), "Bun <=1.1");
    assert_eq!(BunVersion::V1_2_1_3.to_string(), "Bun 1.2-1.3");
    assert_eq!(BunVersion::V1_4Plus.to_string(), "Bun 1.4+");
    assert_eq!(BunVersion::Unknown.to_string(), "Unknown");
}

#[test]
fn tags_have_names() {
    let loaders = [
        "jsx", "js", "ts", "tsx", "css", "file", "json", "jsonc", "toml", "wasm", "napi", "base64",
        "dataurl", "text", "bunsh", "sqlite", "sqlite_embedded", "html", "yaml", "json5", "md",
    ];
    for (tag, name) in loaders.iter().enumerate() {
        assert_eq!(Loader::from(tag as u8).as_str(), *name);
        assert_eq!(Loader::from(tag as u8).to_string(), *name);
    }
    assert_eq!(Loader::from(21), Loader::Unknown(21));
    assert_eq!(Loader::from(21).as_str(), "unknown");
    assert_eq!(Encoding::from(0).as_str(), "binary");
    assert_eq!(Encoding::from(1).as_str(), "latin1");
    assert_eq!(Encoding::from(2).to_string(), "utf8");
    assert_eq!(Encoding::from(3), Encoding::Unknown(3));
    assert_eq!(ModuleFormat::from(0).as_str(), "none");
    assert_eq!(ModuleFormat::from(1).as_str(), "esm");
    assert_eq!(ModuleFormat::from(2).to_string(), "cjs");
    assert_eq!(ModuleFormat::from(9), ModuleFormat::Unknown(9));
    assert_eq!(FileSide::from(0).as_str(), "server");
    assert_eq!(FileSide::from(1).to_string(), "client");
    assert_eq!(FileSide::from(2), FileSide::Unknown(2));
    assert_eq!(FileSide::from(2).as_str(), "unknown");
}

#[test]
fn only_the_first_four_loaders_read_javascript() {
    for tag in 0..=255u8 {
        assert_eq!(Loader::from(tag).is_javascript(), tag < 4);
    }
}

#[test]
fn relative_paths_lose_one_prefix() {
    let relative = |name: &str| module(name, Loader::File).relative_path().to_string();
    assert_eq!(relative("/$bunfs/root/src/a.js"), "src/a.js");
    assert_eq!(relative("/$bunfs/src/a.js"), "src/a.js");
    assert_eq!(relative("B:\\~BUN\\root\\a.js"), "root\\a.js");
    assert_eq!(relative("/$bunfs/root/root/a.js"), "root/a.js");
    assert_eq!(relative("/home/a.js"), "/home/a.js");
    assert_eq!(relative("B:/~BUN/a.js"), "B:/~BUN/a.js");
    assert_eq!(relative("/$bunfs/root/\u{e9}.js"), "\u{e9}.js");
}

#[test]
fn file_types_by_loader_and_extension() {
    assert_eq!(module("x.css", Loader::Ts).file_type(), "TypeScript");
    assert_eq!(module("x.css", Loader::Tsx).file_type(), "TypeScript");
    assert_eq!(module("x.css", Loader::Js).file_type(), "JavaScript");
    assert_eq!(module("x.css", Loader::Jsx).file_type(), "JavaScript");
    for (name, kind) in [
        ("a.js", "JavaScript"),
        ("a.mjs", "JavaScript"),
        ("a.cjs", "JavaScript"),
        ("a.ts", "TypeScript"),
        ("a.mts", "TypeScript"),
        ("a.cts", "TypeScript"),
        ("a.json", "JSON"),
        ("a.wasm", "WebAssembly"),
        ("a.node", "Native addon"),
        ("a.css", "CSS"),
        ("a.html", "HTML"),
        ("a.txt", "Text"),
        ("a.toml", "TOML"),
        ("a.scm", "Scheme/Query"),
        ("a.sql", "SQLite"),
        ("a.sqlite", "SQLite"),
        ("a.jsx", "Unknown"),
        ("js", "Unknown"),
        ("", "Unknown"),
    ] {
        assert_eq!(module(name, Loader::File).file_type(), kind);
    }
}
