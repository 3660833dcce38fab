use bun_binary_extractor::sourcemap::{source_content, source_output_path, SourceMapHeader, SourceMapParts};
use bun_binary_extractor::{BunSourceMap, ExtractError};
use regex::Regex;

fn pack(data: &[u8]) -> Vec<u8> {
    zstd::encode_all(data, 0).unwrap()
}

/// A sourcemap blob with these mappings, names and compressed contents.
fn blob(mappings: &[u8], sources: &[(&[u8], Vec<u8>)]) -> Vec<u8> {
    let mut names = Vec::new();
    let mut contents = Vec::new();
    let mut strings: Vec<u8> = Vec::new();
    let start = 8 + 16 * sources.len() + mappings.len();
    for (name, _) in sources {
        names.extend(((start + strings.len()) as u32).to_le_bytes());
        names.extend((name.len() as u32).to_le_bytes());
        strings.extend(*name);
    }
    for (_, content) in sources {
        contents.extend(((start + strings.len()) as u32).to_le_bytes());
        contents.extend((content.len() as u32).to_le_bytes());
        strings.extend(content);
    }
    let mut blob = Vec::new();
    blob.extend((sources.len() as u32).to_le_bytes());
    blob.extend((mappings.len() as u32).to_le_bytes());
    blob.extend(names);
    blob.extend(contents);
    blob.extend(mappings);
    blob.extend(strings);
    blob
}

fn parsed(sources: &[(&str, &str)]) -> BunSourceMap {
    BunSourceMap {
        sources: sources.iter().map(|(name, _)| name.to_string()).collect(),
        sources_content: sources.iter().map(|(_, content)| content.to_string()).collect(),
        mappings: "AAAA".to_string(),
    }
}

fn reason(result: Result<BunSourceMap, ExtractError>) -> &'static str {
    match result {
        Err(ExtractError::SourceMapParseFailed { reason }) => reason,
        other => panic!("{other:?}"),
    }
}

#[test]
fn test_header_parse() {
    let data = [
        0x02, 0x00, 0x00, 0x00, // source_files_count = 2
        0x10, 0x00, 0x00, 0x00, // map_bytes_length = 16
    ];
    let header = SourceMapHeader::from_bytes(&data).unwrap();
    assert_eq!(header.source_files_count, 2);
    assert_eq!(header.map_bytes_length, 16);
}

#[test]
fn test_header_too_small() {
    let data = [0x02, 0x00, 0x00, 0x00];
    assert!(SourceMapHeader::from_bytes(&data).is_none());
}

#[test]
fn headers_end_after_eight_bytes() {
    let header = SourceMapHeader::from_bytes(&[1, 2, 3, 4, 5, 6, 7, 8, 9]).unwrap();
    assert_eq!(header.source_files_count, 0x0403_0201);
    assert_eq!(header.map_bytes_length, 0x0807_0605);
}

#[test]
fn sources_are_decompressed() {
    let blob = blob(
        b"AAAA;AACA",
        &[
            (b"src/a.ts", pack(b"let a = 1;\n")),
            ("src/\u{e9}.ts".as_bytes(), pack("\u{1f600}".as_bytes())),
            (b"empty.ts", pack(b"")),
        ],
    );
    let map = BunSourceMap::parse(&blob).unwrap();
    assert_eq!(map.sources, ["src/a.ts", "src/\u{e9}.ts", "empty.ts"]);
    assert_eq!(map.sources_content, ["let a = 1;\n", "\u{1f600}", ""]);
    assert_eq!(map.mappings, "AAAA;AACA");
}

#[test]
fn binary_mappings_are_decoded() {
    let mut mappings = Vec::new();
    mappings.extend(89u64.to_le_bytes());
    mappings.extend([0; 16]);
    mappings.extend(1u32.to_le_bytes());
    mappings.extend(56u32.to_le_bytes());
    for value in [1i32, 2, 0, 3, 4, 0] {
        mappings.extend(value.to_le_bytes());
    }
    mappings.push(1);
    mappings.extend([0; 32]);
    let map = BunSourceMap::parse(&blob(&mappings, &[])).unwrap();
    assert_eq!(map.mappings, ";EAGI");
    assert!(map.sources.is_empty());
    // One byte off, the mappings are plain text again, and these bytes happen to be.
    mappings[0] = 90;
    let map = BunSourceMap::parse(&blob(&mappings, &[])).unwrap();
    assert_eq!(map.mappings.as_bytes(), mappings);
}

#[test]
fn blobs_that_are_refused() {
    let good = blob(b"AAAA", &[(b"a.ts", pack(b"a"))]);
    assert!(BunSourceMap::parse(&good).is_ok());
    assert_eq!(reason(BunSourceMap::parse(&good[..7])), "blob too small for header");
    assert_eq!(
        reason(BunSourceMap::parse(&good[..27])),
        "blob too small for declared structure"
    );
    assert_eq!(
        reason(BunSourceMap::parse(&blob(b"\xff", &[]))),
        "mappings is neither a Bun InternalSourceMap nor valid UTF-8 VLQ"
    );
    assert_eq!(
        reason(BunSourceMap::parse(&blob(b"", &[(b"\xff", pack(b"a"))]))),
        "source name is not valid UTF-8"
    );
    assert_eq!(
        reason(BunSourceMap::parse(&blob(b"", &[(b"a", pack(b"\xff\xfe"))]))),
        "decompressed content is not valid UTF-8"
    );
    let mut bad = good.clone();
    bad[12] = 200;
    assert_eq!(reason(BunSourceMap::parse(&bad)), "name pointer out of bounds");
    let mut bad = good.clone();
    bad[20] = 200;
    assert_eq!(reason(BunSourceMap::parse(&bad)), "content pointer out of bounds");
}

#[test]
fn contents_that_are_not_compressed_are_refused() {
    let outcome = BunSourceMap::parse(&blob(b"", &[(b"a", b"not zstd data".to_vec())]));
    match outcome {
        Err(ExtractError::ZstdDecompressFailed(message)) => {
            let expected = zstd::decode_all(&b"not zstd data"[..]).unwrap_err().to_string();
            assert_eq!(message, expected);
        }
        other => panic!("{other:?}"),
    }
}

#[test]
fn the_first_failing_source_decides() {
    let mut bytes = blob(b"", &[(b"a", pack(b"a")), (b"b", b"no zstd".to_vec()), (b"c", pack(b"\xff"))]);
    assert!(matches!(
        BunSourceMap::parse(&bytes),
        Err(ExtractError::ZstdDecompressFailed(_))
    ));
    // The pointer to the first contents leaves the blob.
    bytes[8 + 24 + 4] = 250;
    assert_eq!(reason(BunSourceMap::parse(&bytes)), "content pointer out of bounds");
}

#[test]
fn outcomes_make_up_a_map() {
    let bytes = blob(b"AACA", &[(b"a", b"12".to_vec()), (b"b", b"345".to_vec())]);
    let parts = SourceMapParts::parse(&bytes).unwrap();
    assert_eq!(parts.sources, ["a", "b"]);
    assert_eq!(parts.mappings, "AACA");
    assert_eq!((parts.contents[1].offset, parts.contents[1].length), (48, 3));
    let map = BunSourceMap::from_outcomes(
        parts,
        &bytes,
        &vec![Ok(b"first".to_vec()), Ok(b"second".to_vec())],
    )
    .unwrap();
    assert_eq!(map.sources_content, ["first", "second"]);
    let parts = SourceMapParts::parse(&bytes).unwrap();
    let outcome = BunSourceMap::from_outcomes(
        parts,
        &bytes,
        &vec![Ok(b"first".to_vec()), Err("broken".to_string())],
    );
    assert!(matches!(outcome, Err(ExtractError::ZstdDecompressFailed(message)) if message == "broken"));
}

#[test]
fn contents_by_outcome() {
    assert_eq!(source_content(&Ok(b"text".to_vec())).unwrap(), "text");
    assert!(matches!(
        source_content(&Ok(vec![0xff])),
        Err(ExtractError::SourceMapParseFailed { reason: "decompressed content is not valid UTF-8" })
    ));
    assert!(matches!(
        source_content(&Err("bad frame".to_string())),
        Err(ExtractError::ZstdDecompressFailed(message)) if message == "bad frame"
    ));
}

#[test]
fn json_is_pretty() {
    let map = parsed(&[("a.ts", "let a = \"1\";\n")]);
    assert_eq!(
        map.to_json().unwrap(),
        "{\n  \"mappings\": \"AAAA\",\n  \"sources\": [\n    \"a.ts\"\n  ],\n  \"sourcesContent\": [\n    \"let a = \\\"1\\\";\\n\"\n  ],\n  \"version\": 3\n}"
    );
}

#[test]
fn json_reads_back() {
    let map = parsed(&[("a.ts", "one"), ("b\u{e9}.ts", "two\u{0}")]);
    let value: serde_json::Value = serde_json::from_str(&map.to_json().unwrap()).unwrap();
    assert_eq!(value["version"], 3);
    assert_eq!(value["sources"][1], "b\u{e9}.ts");
    assert_eq!(value["sourcesContent"][1], "two\u{0}");
    assert_eq!(value["mappings"], "AAAA");
    assert_eq!(value.as_object().unwrap().len(), 4);
}

fn selected(map: &BunSourceMap, preserve: bool, filter: Option<&Regex>) -> Vec<(usize, String)> {
    map.selected_sources(preserve, filter)
        .into_iter()
        .map(|source| (source.index, source.relative_path))
        .collect()
}

#[test]
fn sources_are_selected_by_path() {
    let map = parsed(&[
        ("../src/a.ts", "1"),
        ("src/../b.ts", "2"),
        ("/$bunfs/root/../node_modules/c.ts", "3"),
        ("C:/d.ts", "4"),
    ]);
    assert_eq!(
        selected(&map, true, None),
        [(0, "src/a.ts".to_string()), (2, "node_modules/c.ts".to_string())]
    );
    assert_eq!(
        selected(&map, false, None),
        [
            (0, "a.ts".to_string()),
            (1, "b.ts".to_string()),
            (2, "c.ts".to_string()),
            (3, "d.ts".to_string())
        ]
    );
}

#[test]
fn sources_are_selected_by_filter() {
    let map = parsed(&[("src/a.ts", "1"), ("node_modules/b.ts", "2"), ("src/c.js", "3")]);
    let filter = Regex::new("^src/").unwrap();
    assert_eq!(
        selected(&map, true, Some(&filter)),
        [(0, "src/a.ts".to_string()), (2, "src/c.js".to_string())]
    );
    let filter = Regex::new(r"\.ts$").unwrap();
    assert_eq!(
        selected(&map, false, Some(&filter)),
        [(0, "a.ts".to_string()), (1, "b.ts".to_string())]
    );
}

#[test]
fn sources_without_contents_are_not_selected() {
    let mut map = parsed(&[("a.ts", "1"), ("b.ts", "2")]);
    map.sources_content.pop();
    assert_eq!(selected(&map, true, None), [(0, "a.ts".to_string())]);
}

#[test]
fn sources_are_selected_with_given_file_names() {
    let map = parsed(&[("x/a.ts", "1"), ("..", "2")]);
    let names = vec![Some("given.ts".to_string()), None];
    let paths: Vec<String> = map
        .select_sources(false, None, &names)
        .into_iter()
        .map(|source| source.relative_path)
        .collect();
    assert_eq!(paths, ["given.ts"]);
    let paths: Vec<String> = map
        .select_sources(true, None, &names)
        .into_iter()
        .map(|source| source.relative_path)
        .collect();
    assert_eq!(paths, ["x/a.ts"]);
}

#[test]
fn output_paths_by_mode() {
    let file_name = Some("n.ts".to_string());
    assert_eq!(source_output_path("../d/n.ts", true, &file_name), Some("d/n.ts".to_string()));
    assert_eq!(source_output_path("../d/n.ts", false, &file_name), Some("n.ts".to_string()));
    assert_eq!(source_output_path("d/..", false, &None), None);
    assert_eq!(source_output_path("/", false, &None), None);
    assert_eq!(source_output_path("d/..", true, &None), None);
    let outside = Some("C:n.ts".to_string());
    assert_eq!(source_output_path("C:n.ts", false, &outside), None);
    let outside = Some("../n.ts".to_string());
    assert_eq!(source_output_path("n.ts", false, &outside), Some("n.ts".to_string()));
}

#[test]
fn flattened_sources_stay_inside() {
    let map = parsed(&[
        ("/", "1"),
        ("..", "2"),
        ("../..", "3"),
        ("", "4"),
        ("../src/a.ts", "5"),
        ("src\\lib\\b.ts", "6"),
        ("/abs/c.ts", "7"),
        ("d/..", "8"),
        ("x/e.ts/", "9"),
        ("B:/~BUN/root/src/f.ts", "10"),
        ("webpack:///src/g.ts", "11"),
        ("x/a:b.ts", "12"),
    ]);
    assert_eq!(
        selected(&map, false, None),
        [
            (4, "a.ts".to_string()),
            (5, "b.ts".to_string()),
            (6, "c.ts".to_string()),
            (8, "e.ts".to_string()),
            (9, "f.ts".to_string()),
            (10, "g.ts".to_string())
        ]
    );
}
