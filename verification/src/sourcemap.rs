//! Bun binary sourcemap decoder.
//!
//! Bun stores sourcemaps in a custom binary format (NOT standard JSON). This module decodes
//! that format into standard JSON sourcemaps.

use vstd::prelude::*;

use crate::bytes;
use crate::encoding;
use crate::error;
use crate::error::{ExtractError, Failure};
use crate::format::StringPointer;
use crate::internal_map;
use crate::internal_map::InternalSourceMap;
use crate::mappings;
use crate::paths;
use crate::text;

verus! {

/// Header of a Bun binary sourcemap (8 bytes).
#[derive(Debug, Clone, Copy)]
pub struct SourceMapHeader {
    /// Number of source files in the sourcemap.
    pub source_files_count: u32,
    /// Length of Bun's internal source-map mapping blob in bytes.
    pub map_bytes_length: u32,
}

/// The header that the first eight bytes hold.
pub open spec fn header_of(data: Seq<u8>) -> SourceMapHeader {
    SourceMapHeader {
        source_files_count: bytes::le_at(data, 0, 4) as u32,
        map_bytes_length: bytes::le_at(data, 4, 4) as u32,
    }
}

impl SourceMapHeader {
    /// Parse header from an 8-byte little-endian slice; bytes behind these are not read.
    pub fn from_bytes(data: &[u8]) -> (header: Option<Self>)
        ensures
            header == (if data@.len() < 8 {
                None
            } else {
                Some(header_of(data@))
            }),
    {
        if data.len() < 8 {
            return None;
        }
        Some(
            SourceMapHeader {
                source_files_count: bytes::u32_at(data, 0),
                map_bytes_length: bytes::u32_at(data, 4),
            },
        )
    }
}

/// The failure to parse a sourcemap for this reason.
pub open spec fn malformed(reason: Seq<char>) -> Failure {
    Failure::SourceMapParseFailed { reason }
}

/// Where the mappings lie in a sourcemap: behind the header and two pointers for each source.
pub open spec fn mappings_range(blob: Seq<u8>) -> Result<(int, int), Failure> {
    let header = header_of(blob);
    let pointers = header.source_files_count * 8;
    let start = 8 + 2 * pointers;
    let end = start + header.map_bytes_length;
    if blob.len() < 8 {
        Err(malformed("blob too small for header"@))
    } else if pointers > usize::MAX {
        Err(malformed("overflow computing names pointers size"@))
    } else if 8 + pointers > usize::MAX {
        Err(malformed("overflow computing names pointers end"@))
    } else if start > usize::MAX {
        Err(malformed("overflow computing contents pointers end"@))
    } else if end > usize::MAX {
        Err(malformed("overflow computing mappings end"@))
    } else if end > blob.len() {
        Err(malformed("blob too small for declared structure"@))
    } else {
        Ok((start, end))
    }
}

/// The `mappings` string that the stored mappings stand for: that of Bun's binary form, or,
/// where the bytes are not in that form, their own text, which is what older versions stored.
pub open spec fn decoded_mappings(stored: Seq<u8>) -> Result<Seq<char>, Failure> {
    match internal_mappings(stored) {
        Ok(mappings) => Ok(mappings),
        Err(_) => match text::utf8_text(stored) {
            Some(mappings) => Ok(mappings),
            None => Err(
                malformed("mappings is neither a Bun InternalSourceMap nor valid UTF-8 VLQ"@),
            ),
        },
    }
}

/// The `mappings` string of mappings in Bun's binary form.
pub open spec fn internal_mappings(stored: Seq<u8>) -> Result<Seq<char>, Failure> {
    match internal_map::layout_of(stored) {
        Err(failure) => Err(failure),
        Ok(layout) => match internal_map::mappings_of(stored, layout) {
            Err(failure) => Err(failure),
            Ok(states) => Ok(mappings::mappings_text(states)),
        },
    }
}

/// The bytes of the blob that a pointer points to.
pub open spec fn blob_bytes(
    blob: Seq<u8>,
    pointer: StringPointer,
    overflow: Seq<char>,
    outside: Seq<char>,
) -> Result<Seq<u8>, Failure> {
    if pointer.offset + pointer.length > usize::MAX {
        Err(malformed(overflow))
    } else if pointer.offset + pointer.length > blob.len() {
        Err(malformed(outside))
    } else {
        Ok(blob.subrange(pointer.offset as int, pointer.offset + pointer.length))
    }
}

/// The name of the source with this index.
pub open spec fn source_name(blob: Seq<u8>, index: int) -> Result<Seq<char>, Failure> {
    match blob_bytes(
        blob,
        crate::format::string_pointer_at(blob, 8 + 8 * index),
        "overflow computing name slice"@,
        "name pointer out of bounds"@,
    ) {
        Err(failure) => Err(failure),
        Ok(bytes) => match text::utf8_text(bytes) {
            Some(name) => Ok(name),
            None => Err(malformed("source name is not valid UTF-8"@)),
        },
    }
}

/// The pointer to the compressed contents of the source with this index, in a sourcemap with
/// `count` sources.
pub open spec fn content_pointer(blob: Seq<u8>, count: int, index: int) -> StringPointer {
    crate::format::string_pointer_at(blob, 8 + 8 * count + 8 * index)
}

/// The compressed contents that a pointer points to.
pub open spec fn compressed_content(blob: Seq<u8>, pointer: StringPointer) -> Result<
    Seq<u8>,
    Failure,
> {
    blob_bytes(
        blob,
        pointer,
        "overflow computing content slice"@,
        "content pointer out of bounds"@,
    )
}

/// What a sourcemap holds besides the contents of its sources.
pub struct SourceMapParts {
    /// Source file names (relative paths).
    pub sources: Vec<String>,
    /// Standard VLQ-encoded mappings string.
    pub mappings: String,
    /// Where the compressed contents of each source lie in the blob.
    pub contents: Vec<StringPointer>,
}

/// [`SourceMapParts`] over mathematical values.
#[verifier::ext_equal]
pub struct PartsView {
    pub sources: Seq<Seq<char>>,
    pub mappings: Seq<char>,
    pub contents: Seq<StringPointer>,
}

impl View for SourceMapParts {
    type V = PartsView;

    open spec fn view(&self) -> PartsView {
        PartsView {
            sources: paths::texts(self.sources@),
            mappings: self.mappings@,
            contents: self.contents@,
        }
    }
}

/// What a sourcemap blob holds besides the contents of its sources.
pub open spec fn parts_of(blob: Seq<u8>) -> Result<PartsView, Failure> {
    let count = header_of(blob).source_files_count as int;
    match mappings_range(blob) {
        Err(failure) => Err(failure),
        Ok((start, end)) => match decoded_mappings(blob.subrange(start, end)) {
            Err(failure) => Err(failure),
            Ok(mappings) => match error::collect(|i: int| source_name(blob, i), count) {
                Err(failure) => Err(failure),
                Ok(sources) => Ok(
                    PartsView {
                        sources,
                        mappings,
                        contents: Seq::new(
                            count as nat,
                            |i: int| content_pointer(blob, count, i),
                        ),
                    },
                ),
            },
        },
    }
}

/// Decodes stored mappings.
fn decode_mappings(stored: &[u8]) -> (result: Result<String, ExtractError>)
    ensures
        match result {
            Ok(mappings) => decoded_mappings(stored@) == Ok::<Seq<char>, Failure>(mappings@),
            Err(e) => decoded_mappings(stored@) == Err::<Seq<char>, Failure>(e@),
        },
{
    if let Ok(map) = InternalSourceMap::parse(stored) {
        if let Ok(mappings) = map.to_vlq() {
            return Ok(mappings);
        }
    }
    match text::utf8_string(stored) {
        Some(mappings) => Ok(mappings),
        None => Err(
            ExtractError::SourceMapParseFailed {
                reason: "mappings is neither a Bun InternalSourceMap nor valid UTF-8 VLQ",
            },
        ),
    }
}

/// The bytes of the blob that a pointer points to.
fn slice_blob<'a>(
    blob: &'a [u8],
    pointer: &StringPointer,
    overflow: &'static str,
    outside: &'static str,
) -> (result: Result<&'a [u8], ExtractError>)
    ensures
        match result {
            Ok(bytes) => blob_bytes(blob@, *pointer, overflow@, outside@) == Ok::<
                Seq<u8>,
                Failure,
            >(bytes@),
            Err(e) => blob_bytes(blob@, *pointer, overflow@, outside@) == Err::<Seq<u8>, Failure>(
                e@,
            ),
        },
{
    let start: usize = pointer.offset as usize;
    match start.checked_add(pointer.length as usize) {
        None => Err(ExtractError::SourceMapParseFailed { reason: overflow }),
        Some(end) => if end > blob.len() {
            Err(ExtractError::SourceMapParseFailed { reason: outside })
        } else {
            Ok(vstd::slice::slice_subrange(blob, start, end))
        },
    }
}

/// Reads the name of the source with this index.
fn read_source_name(blob: &[u8], index: usize) -> (result: Result<String, ExtractError>)
    requires
        16 + 8 * index <= blob.len(),
    ensures
        match result {
            Ok(name) => source_name(blob@, index as int) == Ok::<Seq<char>, Failure>(name@),
            Err(e) => source_name(blob@, index as int) == Err::<Seq<char>, Failure>(e@),
        },
{
    let pointer = StringPointer::read_at(blob, 8 + 8 * index);
    let bytes = slice_blob(
        blob,
        &pointer,
        "overflow computing name slice",
        "name pointer out of bounds",
    )?;
    match text::utf8_string(bytes) {
        Some(name) => Ok(name),
        None => Err(
            ExtractError::SourceMapParseFailed { reason: "source name is not valid UTF-8" },
        ),
    }
}

/// Reads the names of all sources.
fn read_source_names(blob: &[u8], count: usize) -> (result: Result<Vec<String>, ExtractError>)
    requires
        8 + 8 * count <= blob.len(),
    ensures
        match result {
            Ok(names) => error::collect(|i: int| source_name(blob@, i), count as int) == Ok::<
                Seq<Seq<char>>,
                Failure,
            >(paths::texts(names@)),
            Err(e) => error::collect(|i: int| source_name(blob@, i), count as int) == Err::<
                Seq<Seq<char>>,
                Failure,
            >(e@),
        },
{
    let ghost item = |i: int| source_name(blob@, i);
    let mut names: Vec<String> = Vec::new();
    assert(paths::texts(names@) =~= Seq::empty());
    let mut i: usize = 0;
    while i < count
        invariant
            i <= count,
            8 + 8 * count <= blob.len(),
            item == (|i: int| source_name(blob@, i)),
            error::collect(item, i as int) == Ok::<Seq<Seq<char>>, Failure>(paths::texts(names@)),
        decreases count - i,
    {
        proof {
            if error::collect(item, i + 1) is Err {
                error::lemma_collect_failure_stays(item, i + 1, count as int);
            }
        }
        let name = read_source_name(blob, i)?;
        let ghost before = names@;
        names.push(name);
        assert(paths::texts(names@) =~= paths::texts(before).push(name@));
        i = i + 1;
    }
    Ok(names)
}

impl SourceMapParts {
    /// Reads a sourcemap blob up to the contents of its sources.
    pub fn parse(blob: &[u8]) -> (result: Result<Self, ExtractError>)
        ensures
            match result {
                Ok(parts) => parts_of(blob@) == Ok::<PartsView, Failure>(parts@),
                Err(e) => parts_of(blob@) == Err::<PartsView, Failure>(e@),
            },
    {
        let header = match SourceMapHeader::from_bytes(blob) {
            Some(header) => header,
            None => {
                return Err(
                    ExtractError::SourceMapParseFailed { reason: "blob too small for header" },
                );
            },
        };
        let count: usize = header.source_files_count as usize;
        let pointers: usize = match count.checked_mul(8) {
            Some(pointers) => pointers,
            None => {
                return Err(
                    ExtractError::SourceMapParseFailed {
                        reason: "overflow computing names pointers size",
                    },
                );
            },
        };
        let contents_start: usize = match pointers.checked_add(8) {
            Some(end) => end,
            None => {
                return Err(
                    ExtractError::SourceMapParseFailed {
                        reason: "overflow computing names pointers end",
                    },
                );
            },
        };
        let mappings_start: usize = match contents_start.checked_add(pointers) {
            Some(end) => end,
            None => {
                return Err(
                    ExtractError::SourceMapParseFailed {
                        reason: "overflow computing contents pointers end",
                    },
                );
            },
        };
        let mappings_end: usize = match mappings_start.checked_add(
            header.map_bytes_length as usize,
        ) {
            Some(end) => end,
            None => {
                return Err(
                    ExtractError::SourceMapParseFailed {
                        reason: "overflow computing mappings end",
                    },
                );
            },
        };
        if mappings_end > blob.len() {
            return Err(
                ExtractError::SourceMapParseFailed {
                    reason: "blob too small for declared structure",
                },
            );
        }
        let mut contents: Vec<StringPointer> = Vec::new();
        let mut i: usize = 0;
        while i < count
            invariant
                i <= count,
                contents_start == 8 + 8 * count,
                contents_start + 8 * count <= blob.len(),
                contents@.len() == i,
                forall|j: int|
                    0 <= j < i ==> contents@[j] == content_pointer(blob@, count as int, j),
            decreases count - i,
        {
            contents.push(StringPointer::read_at(blob, contents_start + 8 * i));
            i = i + 1;
        }
        let mappings = decode_mappings(
            vstd::slice::slice_subrange(blob, mappings_start, mappings_end),
        )?;
        let sources = read_source_names(blob, count)?;
        assert(contents@ =~= Seq::new(
            count as nat,
            |i: int| content_pointer(blob@, count as int, i),
        ));
        Ok(SourceMapParts { sources, mappings, contents })
    }
}

/// What `zstd::decode_all` makes of compressed data: the data, or the message of its error.
pub uninterp spec fn zstd_decoded(compressed: Seq<u8>) -> Result<Seq<u8>, Seq<char>>;

/// Decompresses with `zstd::decode_all`. The outcome is claimed to depend on the compressed
/// bytes alone, which holds as long as memory lasts; nothing is claimed of what it is.
#[verifier::external_body]
fn zstd_decode(compressed: &[u8]) -> (decoded: Result<Vec<u8>, String>)
    ensures
        outcome_view(decoded) == zstd_decoded(compressed@),
{
    zstd::decode_all(compressed).map_err(|e| e.to_string())
}

/// The outcome of a decompression over mathematical values.
pub open spec fn outcome_view(outcome: Result<Vec<u8>, String>) -> Result<Seq<u8>, Seq<char>> {
    match outcome {
        Ok(bytes) => Ok(bytes@),
        Err(message) => Err(message@),
    }
}

/// The contents of a source, given the outcome of its decompression.
pub open spec fn content_of(outcome: Result<Seq<u8>, Seq<char>>) -> Result<Seq<char>, Failure> {
    match outcome {
        Err(message) => Err(Failure::ZstdDecompressFailed { message }),
        Ok(bytes) => match text::utf8_text(bytes) {
            Some(content) => Ok(content),
            None => Err(malformed("decompressed content is not valid UTF-8"@)),
        },
    }
}

/// The contents of the source that a pointer points to, given the outcome of the decompression
/// of the bytes there.
pub open spec fn content_at(
    blob: Seq<u8>,
    pointer: StringPointer,
    outcome: Result<Seq<u8>, Seq<char>>,
) -> Result<Seq<char>, Failure> {
    match compressed_content(blob, pointer) {
        Err(failure) => Err(failure),
        Ok(_) => content_of(outcome),
    }
}

/// A decoded Bun binary sourcemap.
#[derive(Debug)]
pub struct BunSourceMap {
    /// Source file names (relative paths).
    pub sources: Vec<String>,
    /// Decompressed source file contents.
    pub sources_content: Vec<String>,
    /// Standard VLQ-encoded mappings string.
    pub mappings: String,
}

/// A [`BunSourceMap`] over mathematical values.
#[verifier::ext_equal]
pub struct SourceMapView {
    pub sources: Seq<Seq<char>>,
    pub sources_content: Seq<Seq<char>>,
    pub mappings: Seq<char>,
}

impl View for BunSourceMap {
    type V = SourceMapView;

    open spec fn view(&self) -> SourceMapView {
        SourceMapView {
            sources: paths::texts(self.sources@),
            sources_content: paths::texts(self.sources_content@),
            mappings: self.mappings@,
        }
    }
}

/// The sourcemap that the parts make up, given the outcome of the decompression of each source:
/// it fails as the first source fails that does.
pub open spec fn completed(
    parts: PartsView,
    blob: Seq<u8>,
    outcome: spec_fn(int) -> Result<Seq<u8>, Seq<char>>,
) -> Result<SourceMapView, Failure> {
    match error::collect(
        |i: int| content_at(blob, parts.contents[i], outcome(i)),
        parts.contents.len() as int,
    ) {
        Err(failure) => Err(failure),
        Ok(sources_content) => Ok(
            SourceMapView { sources: parts.sources, sources_content, mappings: parts.mappings },
        ),
    }
}

/// The outcome of the decompression of each source in the blob.
pub open spec fn zstd_outcomes(blob: Seq<u8>, pointers: Seq<StringPointer>) -> spec_fn(int) -> Result<
    Seq<u8>,
    Seq<char>,
> {
    |i: int|
        zstd_decoded(
            blob.subrange(pointers[i].offset as int, pointers[i].offset + pointers[i].length),
        )
}

/// The sourcemap that a blob holds.
pub open spec fn source_map_of(blob: Seq<u8>) -> Result<SourceMapView, Failure> {
    match parts_of(blob) {
        Err(failure) => Err(failure),
        Ok(parts) => completed(parts, blob, zstd_outcomes(blob, parts.contents)),
    }
}

/// The contents of a source, given the outcome of its decompression.
pub fn source_content(outcome: &Result<Vec<u8>, String>) -> (result: Result<String, ExtractError>)
    ensures
        match result {
            Ok(content) => content_of(outcome_view(*outcome)) == Ok::<Seq<char>, Failure>(content@),
            Err(e) => content_of(outcome_view(*outcome)) == Err::<Seq<char>, Failure>(e@),
        },
{
    match outcome {
        Err(message) => Err(ExtractError::ZstdDecompressFailed(message.clone())),
        Ok(bytes) => match text::utf8_string(bytes) {
            Some(content) => Ok(content),
            None => Err(
                ExtractError::SourceMapParseFailed {
                    reason: "decompressed content is not valid UTF-8",
                },
            ),
        },
    }
}

/// The compressed contents that a pointer points to.
fn slice_content<'a>(blob: &'a [u8], pointer: &StringPointer) -> (result: Result<
    &'a [u8],
    ExtractError,
>)
    ensures
        match result {
            Ok(bytes) => compressed_content(blob@, *pointer) == Ok::<Seq<u8>, Failure>(bytes@),
            Err(e) => compressed_content(blob@, *pointer) == Err::<Seq<u8>, Failure>(e@),
        },
{
    slice_blob(
        blob,
        pointer,
        "overflow computing content slice",
        "content pointer out of bounds",
    )
}

/// The outcomes over mathematical values.
pub open spec fn outcome_views(outcomes: Seq<Result<Vec<u8>, String>>) -> spec_fn(int) -> Result<
    Seq<u8>,
    Seq<char>,
> {
    |i: int| outcome_view(outcomes[i])
}

/// Outcomes count only in front of the first source whose pointer leaves the blob.
proof fn lemma_same_outcomes(
    parts: PartsView,
    blob: Seq<u8>,
    a: spec_fn(int) -> Result<Seq<u8>, Seq<char>>,
    b: spec_fn(int) -> Result<Seq<u8>, Seq<char>>,
    count: int,
)
    requires
        0 <= count <= parts.contents.len(),
        forall|j: int| 0 <= j < count ==> #[trigger] a(j) == b(j),
        count < parts.contents.len() ==> compressed_content(blob, parts.contents[count]) is Err,
    ensures
        completed(parts, blob, a) == completed(parts, blob, b),
{
    let item_a = |i: int| content_at(blob, parts.contents[i], a(i));
    let item_b = |i: int| content_at(blob, parts.contents[i], b(i));
    let reached = if count < parts.contents.len() {
        count + 1
    } else {
        count
    };
    assert forall|i: int| 0 <= i < reached implies #[trigger] item_a(i) == item_b(i) by {
        if i < count {
            assert(a(i) == b(i));
        }
    }
    error::lemma_collect_same(item_a, item_b, reached);
    if count < parts.contents.len() {
        assert(item_a(count) is Err);
        error::lemma_collect_failure_stays(item_a, reached, parts.contents.len() as int);
        error::lemma_collect_failure_stays(item_b, reached, parts.contents.len() as int);
    }
}

impl BunSourceMap {
    /// Parse a Bun binary sourcemap blob.
    ///
    /// # Binary Format
    ///
    /// ```text
    /// Header (8 bytes):
    ///   source_files_count: u32 (LE)
    ///   map_bytes_length:   u32 (LE)
    ///
    /// source_files_count x StringPointer (8 bytes each):
    ///   -> file name pointers { offset: u32 LE, length: u32 LE }
    ///
    /// source_files_count x StringPointer (8 bytes each):
    ///   -> ZSTD-compressed source content pointers { offset: u32 LE, length: u32 LE }
    ///
    /// InternalSourceMap blob (map_bytes_length bytes):
    ///   -> Bun's compact binary mapping representation
    ///
    /// String payload:
    ///   -> file names (plain UTF-8)
    ///   -> compressed source file contents (ZSTD compressed)
    /// ```
    ///
    /// **CRITICAL**: StringPointer offsets are relative to the START of the entire sourcemap
    /// blob, not to the string payload section.
    pub fn parse(blob: &[u8]) -> (result: Result<Self, ExtractError>)
        ensures
            match result {
                Ok(map) => source_map_of(blob@) == Ok::<SourceMapView, Failure>(map@),
                Err(e) => source_map_of(blob@) == Err::<SourceMapView, Failure>(e@),
            },
    {
        let parts = SourceMapParts::parse(blob)?;
        let mut outcomes: Vec<Result<Vec<u8>, String>> = Vec::new();
        let mut i: usize = 0;
        while i < parts.contents.len()
            invariant
                i == outcomes@.len(),
                i <= parts.contents@.len(),
                forall|j: int|
                    0 <= j < i ==> compressed_content(blob@, #[trigger] parts.contents@[j]) is Ok
                        && outcome_view(outcomes@[j]) == zstd_outcomes(blob@, parts.contents@)(j),
            ensures
                i == outcomes@.len(),
                i <= parts.contents@.len(),
                forall|j: int|
                    0 <= j < i ==> compressed_content(blob@, #[trigger] parts.contents@[j]) is Ok
                        && outcome_view(outcomes@[j]) == zstd_outcomes(blob@, parts.contents@)(j),
                i < parts.contents@.len() ==> compressed_content(
                    blob@,
                    parts.contents@[i as int],
                ) is Err,
            decreases parts.contents@.len() - i,
        {
            match slice_content(blob, &parts.contents[i]) {
                Ok(compressed) => {
                    outcomes.push(zstd_decode(compressed));
                    i = i + 1;
                },
                Err(_) => {
                    break;
                },
            }
        }
        proof {
            lemma_same_outcomes(
                parts@,
                blob@,
                outcome_views(outcomes@),
                zstd_outcomes(blob@, parts.contents@),
                i as int,
            );
        }
        Self::from_outcomes(parts, blob, &outcomes)
    }

    /// Completes a sourcemap with the contents of its sources, given the outcome of the
    /// decompression of each: of all of them, or of those in front of the first whose pointer
    /// leaves the blob.
    pub fn from_outcomes(
        parts: SourceMapParts,
        blob: &[u8],
        outcomes: &Vec<Result<Vec<u8>, String>>,
    ) -> (result: Result<Self, ExtractError>)
        requires
            outcomes@.len() >= parts.contents@.len() || compressed_content(
                blob@,
                parts.contents@[outcomes@.len() as int],
            ) is Err,
        ensures
            match result {
                Ok(map) => completed(parts@, blob@, outcome_views(outcomes@)) == Ok::<
                    SourceMapView,
                    Failure,
                >(map@),
                Err(e) => completed(parts@, blob@, outcome_views(outcomes@)) == Err::<
                    SourceMapView,
                    Failure,
                >(e@),
            },
    {
        let SourceMapParts { sources, mappings, contents } = parts;
        let count: usize = contents.len();
        let ghost item = |i: int| content_at(blob@, contents@[i], outcome_views(outcomes@)(i));
        assert(item =~= (|i: int|
            content_at(blob@, parts@.contents[i], outcome_views(outcomes@)(i))));
        let mut sources_content: Vec<String> = Vec::new();
        assert(paths::texts(sources_content@) =~= Seq::empty());
        let mut i: usize = 0;
        while i < count
            invariant
                i <= count,
                i <= outcomes@.len(),
                count == contents@.len(),
                item == (|i: int| content_at(blob@, contents@[i], outcome_views(outcomes@)(i))),
                outcomes@.len() >= count || compressed_content(
                    blob@,
                    contents@[outcomes@.len() as int],
                ) is Err,
                error::collect(item, i as int) == Ok::<Seq<Seq<char>>, Failure>(
                    paths::texts(sources_content@),
                ),
                completed(parts@, blob@, outcome_views(outcomes@)) == (match error::collect(
                    item,
                    count as int,
                ) {
                    Err(failure) => Err::<SourceMapView, Failure>(failure),
                    Ok(sources_content) => Ok(
                        SourceMapView {
                            sources: paths::texts(sources@),
                            sources_content,
                            mappings: mappings@,
                        },
                    ),
                }),
            decreases count - i,
        {
            proof {
                if error::collect(item, i + 1) is Err {
                    error::lemma_collect_failure_stays(item, i + 1, count as int);
                }
            }
            let _ = slice_content(blob, &contents[i])?;
            let content = source_content(&outcomes[i])?;
            let ghost before = sources_content@;
            sources_content.push(content);
            assert(paths::texts(sources_content@) =~= paths::texts(before).push(content@));
            i = i + 1;
        }
        Ok(BunSourceMap { sources, sources_content, mappings })
    }
}

/// What `serde_json::to_string_pretty` prints for an object with four members: a number, two
/// lists of texts, and a text, each with its key.
pub uninterp spec fn pretty_json(
    number: (Seq<char>, u64),
    first: (Seq<char>, Seq<Seq<char>>),
    second: (Seq<char>, Seq<Seq<char>>),
    text: (Seq<char>, Seq<char>),
) -> Seq<char>;

/// Prints an object with `serde_json::to_string_pretty`. The printer fails only for values that
/// refuse to be serialized and for keys that are not strings, and an object of numbers and texts
/// has neither, so it is claimed to succeed; the text is claimed to depend on the members alone.
/// Nothing is claimed of how it reads.
#[verifier::external_body]
fn print_json(
    number: (&str, u64),
    first: (&str, &Vec<String>),
    second: (&str, &Vec<String>),
    text: (&str, &str),
) -> (printed: Result<String, serde_json::Error>)
    ensures
        printed is Ok,
        printed->Ok_0@ == pretty_json(
            (number.0@, number.1),
            (first.0@, paths::texts(first.1@)),
            (second.0@, paths::texts(second.1@)),
            (text.0@, text.1@),
        ),
{
    let object: serde_json::Map<String, serde_json::Value> = FromIterator::from_iter([
        (number.0.to_owned(), serde_json::Value::from(number.1)),
        (first.0.to_owned(), serde_json::Value::from(first.1.as_slice())),
        (second.0.to_owned(), serde_json::Value::from(second.1.as_slice())),
        (text.0.to_owned(), serde_json::Value::from(text.1)),
    ]);
    serde_json::to_string_pretty(&object)
}

/// The version of the sourcemap format that [`BunSourceMap::to_json`] writes.
pub const JSON_VERSION: u64 = 3;

/// The JSON form of a sourcemap.
pub open spec fn json_of(map: SourceMapView) -> Seq<char> {
    pretty_json(
        ("version"@, JSON_VERSION),
        ("sources"@, map.sources),
        ("sourcesContent"@, map.sources_content),
        ("mappings"@, map.mappings),
    )
}

/// The JSON form of a sourcemap has the members of the standard format, version three: the names of
/// the sources, their contents and the mappings, each under its own key.
pub proof fn json_members(
    sources: Seq<Seq<char>>,
    sources_content: Seq<Seq<char>>,
    mappings: Seq<char>,
)
    ensures
        json_of(SourceMapView { sources, sources_content, mappings }) == pretty_json(
            ("version"@, 3),
            ("sources"@, sources),
            ("sourcesContent"@, sources_content),
            ("mappings"@, mappings),
        ),
{
}

impl BunSourceMap {
    /// Serialize to a standard JSON sourcemap.
    ///
    /// Returns a JSON object with:
    /// - `version`: 3
    /// - `sources`: array of source file names
    /// - `sourcesContent`: array of source file contents
    /// - `mappings`: VLQ-encoded mappings string
    pub fn to_json(&self) -> (result: Result<String, ExtractError>)
        ensures
            result is Ok,
            result->Ok_0@ == json_of(self@),
            result->Ok_0@ == pretty_json(
                ("version"@, 3),
                ("sources"@, self@.sources),
                ("sourcesContent"@, self@.sources_content),
                ("mappings"@, self@.mappings),
            ),
    {
        match print_json(
            ("version", JSON_VERSION),
            ("sources", &self.sources),
            ("sourcesContent", &self.sources_content),
            ("mappings", self.mappings.as_str()),
        ) {
            Ok(json) => Ok(json),
            Err(e) => Err(ExtractError::from(e)),
        }
    }
}

/// Makes `regex::Regex` a type that a signature can hold. Nothing is claimed of its values.
#[verifier::external_type_specification]
#[verifier::external_body]
pub struct ExRegex(regex::Regex);

/// Whether a regular expression matches somewhere in a text.
pub uninterp spec fn regex_matches(regex: regex::Regex, text: Seq<char>) -> bool;

/// `regex::Regex::is_match` tells whether the expression matches somewhere in the text. It is
/// claimed to depend on the expression and the text alone; nothing is claimed of which texts
/// an expression matches.
pub assume_specification[ regex::Regex::is_match ](re: &regex::Regex, haystack: &str) -> (matched:
    bool)
    ensures
        matched == regex_matches(*re, haystack@),
;

/// Whether a source passes the filter; without a filter every source does.
pub open spec fn passes(filter: Option<&regex::Regex>, name: Seq<char>) -> bool {
    match filter {
        Some(regex) => regex_matches(*regex, name),
        None => true,
    }
}

/// The path below the output directory to which a source is written, if it is: its sanitized
/// path where paths are preserved, and else its sanitized file name.
pub open spec fn output_path(
    name: Seq<char>,
    preserve_paths: bool,
    file_name: Option<Seq<char>>,
) -> Option<Seq<char>> {
    if preserve_paths {
        paths::source_path(name)
    } else {
        match file_name {
            Some(file_name) => paths::source_path(file_name),
            None => None,
        }
    }
}

/// The path below the output directory to which a source with this file name is written.
pub fn source_output_path(name: &str, preserve_paths: bool, file_name: &Option<String>) -> (path:
    Option<String>)
    ensures
        crate::format::optional_text(path) == output_path(
            name@,
            preserve_paths,
            crate::format::optional_text(*file_name),
        ),
{
    if preserve_paths {
        paths::sanitize_source_path(name)
    } else {
        match file_name {
            Some(file_name) => paths::sanitize_source_path(file_name.as_str()),
            None => None,
        }
    }
}

/// A source that is to be written: its index, and its path below the output directory.
pub struct SelectedSource {
    pub index: usize,
    pub relative_path: String,
}

/// The selected sources over mathematical values.
pub open spec fn selection_views(selected: Seq<SelectedSource>) -> Seq<(int, Seq<char>)> {
    selected.map_values(|source: SelectedSource| (source.index as int, source.relative_path@))
}

/// The sources among the first `count` that are to be written, in order: those that pass the
/// filter and have an output path.
pub open spec fn selection(
    names: Seq<Seq<char>>,
    filter: Option<&regex::Regex>,
    preserve_paths: bool,
    file_names: Seq<Option<Seq<char>>>,
    count: int,
) -> Seq<(int, Seq<char>)>
    decreases count,
{
    if count <= 0 {
        Seq::empty()
    } else {
        let before = selection(names, filter, preserve_paths, file_names, count - 1);
        let name = names[count - 1];
        match output_path(name, preserve_paths, file_names[count - 1]) {
            Some(path) if passes(filter, name) => before.push((count - 1, path)),
            _ => before,
        }
    }
}

/// The sources among the first `count` that are to be written where paths are preserved.
pub open spec fn preserved_selection(
    names: Seq<Seq<char>>,
    filter: Option<&regex::Regex>,
    count: int,
) -> Seq<(int, Seq<char>)>
    decreases count,
{
    if count <= 0 {
        Seq::empty()
    } else {
        let before = preserved_selection(names, filter, count - 1);
        let name = names[count - 1];
        match paths::source_path(name) {
            Some(path) if passes(filter, name) => before.push((count - 1, path)),
            _ => before,
        }
    }
}

/// Where paths are preserved, file names do not count.
proof fn lemma_preserved_selection(
    names: Seq<Seq<char>>,
    filter: Option<&regex::Regex>,
    file_names: Seq<Option<Seq<char>>>,
    count: int,
)
    ensures
        selection(names, filter, true, file_names, count) == preserved_selection(
            names,
            filter,
            count,
        ),
    decreases count,
{
    if count > 0 {
        lemma_preserved_selection(names, filter, file_names, count - 1);
    }
}

/// Whether `path` consists of plain parts, so that it leads nowhere but into the directory that
/// it is looked up in.
pub open spec fn is_inside(path: Seq<char>) -> bool {
    exists|parts: Seq<Seq<char>>|
        parts.len() > 0 && paths::all_plain(parts) && path == #[trigger] paths::join(parts)
}

/// An output path leads nowhere but into the output directory.
pub proof fn output_path_is_inside(
    name: Seq<char>,
    preserve_paths: bool,
    file_name: Option<Seq<char>>,
)
    ensures
        output_path(name, preserve_paths, file_name) matches Some(path) ==> is_inside(path),
{
    let source = if preserve_paths {
        name
    } else {
        file_name->Some_0
    };
    paths::source_stays_inside(source);
    if output_path(name, preserve_paths, file_name) is Some {
        let parts = paths::source_parts(source)->Some_0;
        assert(is_inside(paths::join(parts)));
    }
}

/// The selected sources are listed in order, each at most once, each passes the filter, and each
/// goes to its output path, which stays below the output directory. No other source that passes
/// the filter has an output path.
pub proof fn sources_stay_inside(
    names: Seq<Seq<char>>,
    filter: Option<&regex::Regex>,
    preserve_paths: bool,
    file_names: Seq<Option<Seq<char>>>,
    count: int,
)
    requires
        0 <= count <= names.len(),
    ensures
        ({
            let selected = selection(names, filter, preserve_paths, file_names, count);
            &&& forall|k: int|
                #![trigger selected[k]]
                0 <= k < selected.len() ==> {
                    let i = selected[k].0;
                    &&& 0 <= i < count
                    &&& passes(filter, names[i])
                    &&& output_path(names[i], preserve_paths, file_names[i]) == Some(selected[k].1)
                    &&& is_inside(selected[k].1)
                }
            &&& forall|j: int, k: int|
                #![trigger selected[j], selected[k]]
                0 <= j < k < selected.len() ==> selected[j].0 < selected[k].0
            &&& forall|i: int|
                #![trigger names[i]]
                0 <= i < count && passes(filter, names[i]) ==> match output_path(
                    names[i],
                    preserve_paths,
                    file_names[i],
                ) {
                    Some(path) => selected.contains((i, path)),
                    None => true,
                }
        }),
    decreases count,
{
    if count > 0 {
        sources_stay_inside(names, filter, preserve_paths, file_names, count - 1);
        let before = selection(names, filter, preserve_paths, file_names, count - 1);
        let selected = selection(names, filter, preserve_paths, file_names, count);
        output_path_is_inside(names[count - 1], preserve_paths, file_names[count - 1]);
        assert forall|i: int|
            #![trigger names[i]]
            0 <= i < count && passes(filter, names[i]) implies match output_path(
            names[i],
            preserve_paths,
            file_names[i],
        ) {
            Some(path) => selected.contains((i, path)),
            None => true,
        } by {
            if let Some(path) = output_path(names[i], preserve_paths, file_names[i]) {
                if i < count - 1 {
                    assert(before.contains((i, path)));
                    let k = choose|k: int| 0 <= k < before.len() && before[k] == (i, path);
                    assert(selected[k] == (i, path));
                } else {
                    assert(selected[selected.len() - 1] == (i, path));
                }
            }
        }
    }
}

/// Where paths are preserved, the selected sources are listed in order, each at most once, each
/// passes the filter, and each goes to its sanitized path, which stays below the output
/// directory. No other source that passes the filter has a sanitized path.
pub proof fn preserved_sources(names: Seq<Seq<char>>, filter: Option<&regex::Regex>, count: int)
    requires
        0 <= count <= names.len(),
    ensures
        ({
            let selected = preserved_selection(names, filter, count);
            &&& forall|k: int|
                #![trigger selected[k]]
                0 <= k < selected.len() ==> {
                    &&& 0 <= selected[k].0 < count
                    &&& passes(filter, names[selected[k].0])
                    &&& paths::source_path(names[selected[k].0]) == Some(selected[k].1)
                    &&& is_inside(selected[k].1)
                }
            &&& forall|j: int, k: int|
                #![trigger selected[j], selected[k]]
                0 <= j < k < selected.len() ==> selected[j].0 < selected[k].0
            &&& forall|i: int|
                #![trigger names[i]]
                0 <= i < count && passes(filter, names[i]) ==> match paths::source_path(names[i]) {
                    Some(path) => selected.contains((i, path)),
                    None => true,
                }
        }),
{
    let file_names = Seq::new(names.len(), |i: int| None::<Seq<char>>);
    lemma_preserved_selection(names, filter, file_names, count);
    sources_stay_inside(names, filter, true, file_names, count);
}

/// Whether `file_names` holds what is known of the file name of each source: where it is the same on
/// Unix and Windows, it is the last component.
pub open spec fn are_file_names(
    names: Seq<Seq<char>>,
    file_names: Seq<Option<Seq<char>>>,
) -> bool {
    &&& file_names.len() == names.len()
    &&& forall|i: int|
        0 <= i < names.len() && paths::is_portable(paths::with_slashes(names[i]))
            ==> #[trigger] file_names[i] == paths::last_component(
            paths::split(paths::with_slashes(names[i])),
        )
}

/// Where paths are not preserved, every selected source passes the filter and stays below the
/// output directory. Where its file name is the same on Unix and Windows, it goes to that name; a
/// source without a file name, or with a colon in it, is not selected then, and any other that
/// passes the filter is.
pub proof fn flattened_sources(
    names: Seq<Seq<char>>,
    filter: Option<&regex::Regex>,
    file_names: Seq<Option<Seq<char>>>,
    count: int,
)
    requires
        0 <= count <= names.len(),
        are_file_names(names, file_names),
    ensures
        ({
            let selected = selection(names, filter, false, file_names, count);
            &&& forall|k: int|
                #![trigger selected[k]]
                0 <= k < selected.len() ==> {
                    let i = selected[k].0;
                    let name = paths::with_slashes(names[i]);
                    &&& 0 <= i < count
                    &&& passes(filter, names[i])
                    &&& is_inside(selected[k].1)
                    &&& paths::is_portable(name) ==> paths::last_component(paths::split(name))
                        == Some(selected[k].1) && !selected[k].1.contains(':')
                }
            &&& forall|i: int|
                #![trigger names[i]]
                0 <= i < count && passes(filter, names[i]) && paths::is_portable(
                    paths::with_slashes(names[i]),
                ) ==> match paths::last_component(paths::split(paths::with_slashes(names[i]))) {
                    Some(path) => selected.contains((i, path)) || path.contains(':'),
                    None => true,
                }
        }),
{
    sources_stay_inside(names, filter, false, file_names, count);
    assert forall|i: int|
        0 <= i < count && paths::is_portable(paths::with_slashes(#[trigger] names[i])) implies {
        &&& file_names[i] == paths::last_component(paths::split(paths::with_slashes(names[i])))
        &&& output_path(names[i], false, file_names[i]) == (match file_names[i] {
            Some(path) if path.contains(':') => None,
            _ => file_names[i],
        })
    } by {
        paths::file_name_is_kept(paths::with_slashes(names[i]));
        assert(file_names[i] == file_names[i]);
    }
}

/// The file names over mathematical values.
pub open spec fn file_name_views(file_names: Seq<Option<String>>) -> Seq<Option<Seq<char>>> {
    file_names.map_values(|name: Option<String>| crate::format::optional_text(name))
}

impl BunSourceMap {
    /// How many sources have both a name and contents.
    pub open spec fn complete_sources(&self) -> int {
        if self.sources@.len() < self.sources_content@.len() {
            self.sources@.len() as int
        } else {
            self.sources_content@.len() as int
        }
    }

    /// Selects the sources that are to be written, given the file name of each source.
    pub fn select_sources(
        &self,
        preserve_paths: bool,
        filter: Option<&regex::Regex>,
        file_names: &Vec<Option<String>>,
    ) -> (selected: Vec<SelectedSource>)
        requires
            file_names@.len() == self.sources@.len(),
        ensures
            selection_views(selected@) == selection(
                self@.sources,
                filter,
                preserve_paths,
                file_name_views(file_names@),
                self.complete_sources(),
            ),
    {
        let mut selected: Vec<SelectedSource> = Vec::new();
        let mut i: usize = 0;
        assert(selection_views(selected@) =~= Seq::empty());
        while i < self.sources.len() && i < self.sources_content.len()
            invariant
                file_names@.len() == self.sources@.len(),
                i <= self.complete_sources(),
                selection_views(selected@) == selection(
                    self@.sources,
                    filter,
                    preserve_paths,
                    file_name_views(file_names@),
                    i as int,
                ),
            decreases self.complete_sources() - i,
        {
            let ghost before = selected@;
            let name = self.sources[i].as_str();
            let wanted: bool = match filter {
                Some(regex) => regex.is_match(name),
                None => true,
            };
            if wanted {
                if let Some(relative_path) = source_output_path(
                    name,
                    preserve_paths,
                    &file_names[i],
                ) {
                    selected.push(SelectedSource { index: i, relative_path });
                    assert(selection_views(selected@) =~= selection_views(before).push(
                        (i as int, relative_path@),
                    ));
                }
            }
            i = i + 1;
        }
        selected
    }

    /// Selects the sources that are to be written: those that pass the filter, under their
    /// sanitized paths or, where paths are not preserved, under their sanitized file names.
    /// Sources without such a path are skipped.
    pub fn selected_sources(&self, preserve_paths: bool, filter: Option<&regex::Regex>) -> (selected:
        Vec<SelectedSource>)
        ensures
            exists|file_names: Seq<Option<Seq<char>>>|
                are_file_names(self@.sources, file_names) && selection_views(selected@)
                    == #[trigger] selection(
                    self@.sources,
                    filter,
                    preserve_paths,
                    file_names,
                    self.complete_sources(),
                ),
            preserve_paths ==> selection_views(selected@) == preserved_selection(
                self@.sources,
                filter,
                self.complete_sources(),
            ),
            forall|k: int|
                0 <= k < selected@.len() ==> is_inside(#[trigger] selected@[k].relative_path@),
    {
        let mut file_names: Vec<Option<String>> = Vec::new();
        let mut i: usize = 0;
        while i < self.sources.len()
            invariant
                i <= self.sources@.len(),
                file_names@.len() == i,
                are_file_names(self@.sources.take(i as int), file_name_views(file_names@)),
            decreases self.sources@.len() - i,
        {
            let ghost before = file_names@;
            file_names.push(paths::file_name_of(self.sources[i].as_str()));
            i = i + 1;
            proof {
                let views = file_name_views(file_names@);
                assert forall|j: int|
                    0 <= j < i && paths::is_portable(
                        paths::with_slashes(self@.sources.take(i as int)[j]),
                    ) implies #[trigger] views[j] == paths::last_component(
                    paths::split(paths::with_slashes(self@.sources.take(i as int)[j])),
                ) by {
                    if j < i - 1 {
                        assert(views[j] == file_name_views(before)[j]);
                        assert(self@.sources.take(i - 1)[j] == self@.sources.take(i as int)[j]);
                    }
                }
            }
        }
        let selected = self.select_sources(preserve_paths, filter, &file_names);
        assert(self@.sources.take(i as int) =~= self@.sources);
        proof {
            lemma_preserved_selection(
                self@.sources,
                filter,
                file_name_views(file_names@),
                self.complete_sources(),
            );
            sources_stay_inside(
                self@.sources,
                filter,
                preserve_paths,
                file_name_views(file_names@),
                self.complete_sources(),
            );
            assert forall|k: int| 0 <= k < selected@.len() implies is_inside(
                #[trigger] selected@[k].relative_path@,
            ) by {
                assert(selection_views(selected@)[k].1 == selected@[k].relative_path@);
            }
        }
        selected
    }
}

/// A parsed sourcemap has a name and contents for each source that its header announces, and
/// the sources are the names in the blob, in order.
pub proof fn sources_are_complete(blob: Seq<u8>)
    requires
        source_map_of(blob) is Ok,
    ensures
        ({
            let map = source_map_of(blob)->Ok_0;
            let count = header_of(blob).source_files_count;
            &&& map.sources.len() == count
            &&& map.sources_content.len() == count
            &&& forall|i: int|
                #![trigger map.sources[i]]
                0 <= i < count ==> source_name(blob, i) == Ok::<Seq<char>, Failure>(map.sources[i])
        }),
{
    let parts = parts_of(blob)->Ok_0;
    let outcome = zstd_outcomes(blob, parts.contents);
    error::lemma_collect_items(
        |i: int| source_name(blob, i),
        header_of(blob).source_files_count as int,
    );
    error::lemma_collect_items(
        |i: int| content_at(blob, parts.contents[i], outcome(i)),
        parts.contents.len() as int,
    );
}

/// A source as a sourcemap holds it: its name, its compressed contents, and the contents.
pub struct ListedSource {
    pub name: Seq<char>,
    pub compressed: Seq<u8>,
    pub content: Seq<char>,
}

/// Whether the string pointer at `at`, an offset and a length, points to `bytes` in the blob.
pub open spec fn points_into(blob: Seq<u8>, at: int, bytes: Seq<u8>) -> bool {
    let offset = bytes::le_at(blob, at, 4) as int;
    &&& bytes::le_at(blob, at + 4, 4) == bytes.len()
    &&& offset + bytes.len() <= blob.len()
    &&& blob.subrange(offset, offset + bytes.len()) == bytes
}

/// Whether a sourcemap with `count` sources lists `source` at this place: the pointers to all names
/// follow the header, and those to all contents follow them.
pub open spec fn lists_source(
    blob: Seq<u8>,
    count: int,
    index: int,
    source: ListedSource,
) -> bool {
    &&& points_into(blob, 8 + 8 * index, vstd::utf8::encode_utf8(source.name))
    &&& points_into(blob, 8 + 8 * count + 8 * index, source.compressed)
    &&& zstd_decoded(source.compressed) == Ok::<Seq<u8>, Seq<char>>(
        vstd::utf8::encode_utf8(source.content),
    )
}

/// Parsing a sourcemap gives back the sources that it lists, all of them, in order, with their
/// contents, and the mappings that it stores behind the pointers.
pub proof fn listed_sources_are_parsed(
    blob: Seq<u8>,
    sources: Seq<ListedSource>,
    mappings: Seq<char>,
)
    requires
        blob.len() <= usize::MAX,
        blob.len() >= 8,
        bytes::le_at(blob, 0, 4) == sources.len(),
        8 + 16 * sources.len() + bytes::le_at(blob, 4, 4) <= blob.len(),
        decoded_mappings(
            blob.subrange(
                8 + 16 * sources.len() as int,
                8 + 16 * sources.len() as int + bytes::le_at(blob, 4, 4),
            ),
        ) == Ok::<Seq<char>, Failure>(mappings),
        forall|i: int|
            0 <= i < sources.len() ==> #[trigger] lists_source(
                blob,
                sources.len() as int,
                i,
                sources[i],
            ),
    ensures
        source_map_of(blob) == Ok::<SourceMapView, Failure>(
            SourceMapView {
                sources: Seq::new(sources.len(), |i: int| sources[i].name),
                sources_content: Seq::new(sources.len(), |i: int| sources[i].content),
                mappings,
            },
        ),
{
    let count = sources.len() as int;
    let names = |i: int| source_name(blob, i);
    let pointers = Seq::new(count as nat, |i: int| content_pointer(blob, count, i));
    let outcome = zstd_outcomes(blob, pointers);
    let contents = |i: int| content_at(blob, pointers[i], outcome(i));
    bytes::lemma_le_at_bound(blob, 0);
    bytes::lemma_le_at_bound(blob, 4);
    assert(header_of(blob).source_files_count == count);
    assert forall|i: int| 0 <= i < count implies names(i) == Ok::<Seq<char>, Failure>(
        sources[i].name,
    ) && contents(i) == Ok::<Seq<char>, Failure>(sources[i].content) by {
        assert(lists_source(blob, count, i, sources[i]));
        bytes::lemma_le_at_bound(blob, 8 + 8 * i);
        bytes::lemma_le_at_bound(blob, 8 + 8 * i + 4);
        bytes::lemma_le_at_bound(blob, 8 + 8 * count + 8 * i);
        bytes::lemma_le_at_bound(blob, 8 + 8 * count + 8 * i + 4);
        text::encoded_text_is_read(
            vstd::utf8::encode_utf8(sources[i].name),
            sources[i].name,
        );
        text::encoded_text_is_read(
            vstd::utf8::encode_utf8(sources[i].content),
            sources[i].content,
        );
    }
    error::lemma_collect_all(names, Seq::new(sources.len(), |i: int| sources[i].name));
    error::lemma_collect_all(contents, Seq::new(sources.len(), |i: int| sources[i].content));
}

/// The header of a sourcemap is the number of its sources and the length of its mappings.
pub proof fn header_fields(data: Seq<u8>)
    ensures
        header_of(data).source_files_count == data[0] + 0x100 * data[1] + 0x1_0000 * data[2]
            + 0x100_0000 * data[3],
        header_of(data).map_bytes_length == data[4] + 0x100 * data[5] + 0x1_0000 * data[6]
            + 0x100_0000 * data[7],
{
    bytes::lowest_byte_first(data, 0);
    bytes::lowest_byte_first(data, 4);
}

/// A blob with no room for what its header announces is refused, and so is one with mappings that
/// cannot be decoded, with a name that leaves it or is not text, or with contents that leave it,
/// cannot be decompressed or are not text.
pub proof fn refused_sourcemaps(blob: Seq<u8>, index: int)
    ensures
        blob.len() < 8 ==> source_map_of(blob) is Err,
        8 + 16 * bytes::le_at(blob, 0, 4) + bytes::le_at(blob, 4, 4) > blob.len() ==> source_map_of(
            blob,
        ) is Err,
        source_map_of(blob) matches Ok(map) ==> {
            let start = 8 + 16 * bytes::le_at(blob, 0, 4) as int;
            decoded_mappings(blob.subrange(start, start + bytes::le_at(blob, 4, 4))) == Ok::<
                Seq<char>,
                Failure,
            >(map.mappings)
        },
        source_map_of(blob) is Ok && 0 <= index < bytes::le_at(blob, 0, 4) ==> {
            let count = bytes::le_at(blob, 0, 4);
            let name_at = bytes::le_at(blob, 8 + 8 * index, 4) as int;
            let name_end = name_at + bytes::le_at(blob, 12 + 8 * index, 4);
            let content_at = bytes::le_at(blob, 8 + 8 * count + 8 * index, 4) as int;
            let content_end = content_at + bytes::le_at(blob, 12 + 8 * count + 8 * index, 4);
            let map = source_map_of(blob)->Ok_0;
            &&& name_end <= blob.len()
            &&& content_end <= blob.len()
            &&& blob.subrange(name_at, name_end) == vstd::utf8::encode_utf8(map.sources[index])
            &&& zstd_decoded(blob.subrange(content_at, content_end)) == Ok::<Seq<u8>, Seq<char>>(
                vstd::utf8::encode_utf8(map.sources_content[index]),
            )
        },
{
    bytes::lemma_le_at_bound(blob, 0);
    bytes::lemma_le_at_bound(blob, 4);
    let count = bytes::le_at(blob, 0, 4) as int;
    if source_map_of(blob) is Ok && 0 <= index < count {
        let map = source_map_of(blob)->Ok_0;
        sources_are_complete(blob);
        let parts = parts_of(blob)->Ok_0;
        let outcome = zstd_outcomes(blob, parts.contents);
        let item = |i: int| content_at(blob, parts.contents[i], outcome(i));
        error::lemma_collect_items(item, parts.contents.len() as int);
        assert(item(index) == Ok::<Seq<char>, Failure>(map.sources_content[index]));
        assert(source_name(blob, index) == Ok::<Seq<char>, Failure>(map.sources[index]));
        bytes::lemma_le_at_bound(blob, 8 + 8 * index);
        bytes::lemma_le_at_bound(blob, 8 + 8 * index + 4);
        bytes::lemma_le_at_bound(blob, 8 + 8 * count + 8 * index);
        bytes::lemma_le_at_bound(blob, 8 + 8 * count + 8 * index + 4);
        let pointer = parts.contents[index];
        assert(pointer == content_pointer(blob, count, index));
        let name_at = bytes::le_at(blob, 8 + 8 * index, 4) as int;
        let name_end = name_at + bytes::le_at(blob, 8 + 8 * index + 4, 4);
        text::encoded_text_is_read(blob.subrange(name_at, name_end), map.sources[index]);
        let bytes = outcome(index)->Ok_0;
        text::encoded_text_is_read(bytes, map.sources_content[index]);
    }
}

/// Why a sourcemap is refused: for a blob that is too small, for a name or contents that leave it, or
/// for a name that is not text.
pub proof fn reasons_of_refusal(blob: Seq<u8>, index: int)
    requires
        blob.len() <= usize::MAX,
    ensures
        blob.len() < 8 ==> parts_of(blob) == Err::<PartsView, Failure>(
            Failure::SourceMapParseFailed { reason: "blob too small for header"@ },
        ),
        blob.len() >= 8 && blob.len() < 8 + 16 * bytes::le_at(blob, 0, 4) + bytes::le_at(blob, 4, 4)
            <= usize::MAX ==> parts_of(blob) == Err::<PartsView, Failure>(
            Failure::SourceMapParseFailed { reason: "blob too small for declared structure"@ },
        ),
        ({
            let offset = bytes::le_at(blob, 8 + 8 * index, 4) as int;
            let end = offset + bytes::le_at(blob, 12 + 8 * index, 4);
            &&& blob.len() < end <= usize::MAX ==> source_name(blob, index) == Err::<
                Seq<char>,
                Failure,
            >(Failure::SourceMapParseFailed { reason: "name pointer out of bounds"@ })
            &&& end <= blob.len() && !vstd::utf8::valid_utf8(blob.subrange(offset, end))
                ==> source_name(blob, index) == Err::<Seq<char>, Failure>(
                Failure::SourceMapParseFailed { reason: "source name is not valid UTF-8"@ },
            )
        }),
        forall|pointer: StringPointer|
            blob.len() < pointer.offset + pointer.length <= usize::MAX
                ==> #[trigger] compressed_content(blob, pointer) == Err::<Seq<u8>, Failure>(
                Failure::SourceMapParseFailed { reason: "content pointer out of bounds"@ },
            ),
{
    bytes::lemma_le_at_bound(blob, 0);
    bytes::lemma_le_at_bound(blob, 4);
    bytes::lemma_le_at_bound(blob, 8 + 8 * index);
    bytes::lemma_le_at_bound(blob, 8 + 8 * index + 4);
    let offset = bytes::le_at(blob, 8 + 8 * index, 4) as int;
    let end = offset + bytes::le_at(blob, 8 + 8 * index + 4, 4);
    text::encoded_text_is_read(blob.subrange(offset, end), Seq::empty());
}

/// What becomes of the contents of a source: the text that decompression gives, or an error with
/// the message of the decompression, or one that says that it gives no text.
pub proof fn contents_are_text(content: Seq<char>, bytes: Seq<u8>, message: Seq<char>)
    ensures
        content_of(Ok::<Seq<u8>, Seq<char>>(vstd::utf8::encode_utf8(content))) == Ok::<
            Seq<char>,
            Failure,
        >(content),
        content_of(Err::<Seq<u8>, Seq<char>>(message)) == Err::<Seq<char>, Failure>(
            Failure::ZstdDecompressFailed { message },
        ),
        !vstd::utf8::valid_utf8(bytes) ==> content_of(Ok::<Seq<u8>, Seq<char>>(bytes)) == Err::<
            Seq<char>,
            Failure,
        >(Failure::SourceMapParseFailed { reason: "decompressed content is not valid UTF-8"@ }),
{
    text::encoded_text_is_read(vstd::utf8::encode_utf8(content), content);
    text::encoded_text_is_read(bytes, content);
}

/// Only the first eight bytes of what [`SourceMapHeader::from_bytes`] is given count.
pub proof fn header_prefix(data: Seq<u8>, rest: Seq<u8>)
    requires
        data.len() >= 8,
    ensures
        header_of(data + rest) == header_of(data),
{
    bytes::lemma_le_at_same(data + rest, data, 0, 0, 4);
    bytes::lemma_le_at_same(data + rest, data, 4, 4, 4);
}

/// Mappings that are stored in Bun's binary form, in order and with differences that can be
/// written, are what a reader of the standard format reads from the decoded string.
pub proof fn decoded_mappings_read_back(stored: Seq<u8>, layout: internal_map::Layout)
    requires
        internal_map::layout_of(stored) == Ok::<internal_map::Layout, Failure>(layout),
        internal_map::mappings_of(stored, layout) matches Ok(states) && mappings::in_order(states),
    ensures
        decoded_mappings(stored) matches Ok(text) && mappings::read_mappings(
            text,
            mappings::origin()@,
        ) == Some(
            (internal_map::mappings_of(stored, layout)->Ok_0).map_values(
                |s: mappings::MapState| s@,
            ),
        ),
{
    mappings::mappings_round_trip(internal_map::mappings_of(stored, layout)->Ok_0);
}

/// Mappings that were written in Bun's binary form are decoded to a string from which a reader of the
/// standard format gets exactly these mappings.
pub proof fn stored_mappings_are_decoded(
    windows: Seq<encoding::EncodedWindow>,
    reserved: Seq<u8>,
)
    requires
        encoding::fits_map(windows, reserved),
        mappings::in_order(encoding::all_states(windows, windows.len() as int)),
    ensures
        ({
            let states = encoding::all_states(windows, windows.len() as int);
            decoded_mappings(encoding::map_bytes(windows, reserved)) matches Ok(text)
                && mappings::read_mappings(text, mappings::origin()@) == Some(
                states.map_values(|s: mappings::MapState| s@),
            )
        }),
{
    let states = encoding::all_states(windows, windows.len() as int);
    encoding::map_round_trip(windows, reserved);
    mappings::mappings_round_trip(states);
}

/// Stored bytes that are not in Bun's binary form are the mappings themselves, character for
/// character, if they are text; if they are not, they are refused.
pub proof fn stored_text_is_kept(stored: Seq<u8>, mappings: Seq<char>)
    ensures
        internal_map::layout_of(vstd::utf8::encode_utf8(mappings)) is Err ==> decoded_mappings(
            vstd::utf8::encode_utf8(mappings),
        ) == Ok::<Seq<char>, Failure>(mappings),
        internal_mappings(vstd::utf8::encode_utf8(mappings)) is Err ==> decoded_mappings(
            vstd::utf8::encode_utf8(mappings),
        ) == Ok::<Seq<char>, Failure>(mappings),
        internal_mappings(stored) is Err && !vstd::utf8::valid_utf8(stored) ==> decoded_mappings(
            stored,
        ) == Err::<Seq<char>, Failure>(
            Failure::SourceMapParseFailed {
                reason: "mappings is neither a Bun InternalSourceMap nor valid UTF-8 VLQ"@,
            },
        ),
        decoded_mappings(stored) is Ok && internal_map::layout_of(stored) is Err ==> stored
            == vstd::utf8::encode_utf8(decoded_mappings(stored)->Ok_0),
{
    text::encoded_text_is_read(vstd::utf8::encode_utf8(mappings), mappings);
    text::encoded_text_is_read(stored, mappings);
    if decoded_mappings(stored) is Ok {
        text::encoded_text_is_read(stored, decoded_mappings(stored)->Ok_0);
    }
}

/// A `mappings` string that is stored as such, as older versions do, is kept as it is, with every
/// separator: none can be taken for Bun's binary form.
pub proof fn standard_mappings_are_kept(mappings: Seq<char>)
    requires
        mappings.len() < 0x2b00_0000,
        forall|i: int|
            0 <= i < mappings.len() ==> {
                let ch = #[trigger] mappings[i];
                ||| 'A' <= ch <= 'Z'
                ||| 'a' <= ch <= 'z'
                ||| '0' <= ch <= '9'
                ||| ch == '+' || ch == '/' || ch == ',' || ch == ';'
            },
    ensures
        decoded_mappings(vstd::utf8::encode_utf8(mappings)) == Ok::<Seq<char>, Failure>(mappings),
{
    let stored = vstd::utf8::encode_utf8(mappings);
    assert(vstd::utf8::is_ascii_chars(mappings)) by {
        assert forall|i: int| 0 <= i < mappings.len() implies (0 <= #[trigger] mappings[i] as u32
            && mappings[i] as u32 <= 127) by {}
    }
    vstd::utf8::is_ascii_chars_encode_utf8(mappings);
    if stored.len() >= 32 {
        let word = bytes::le_at(stored, 0, 8) as u64;
        bytes::lemma_le_at_bound(stored, 0);
        bytes::lowest_byte_first(stored, 0);
        assert(mappings[3] as u8 == stored[3] && mappings[3] >= '+');
        assert(stored[3] >= 43);
        let low = bytes::le_at(stored, 0, 4) as u64;
        let high = bytes::le_at(stored, 4, 4) as u64;
        bytes::lowest_byte_first(stored, 4);
        bytes::lemma_le_at_bound(stored, 4);
        assert(word == low + 0x1_0000_0000 * high);
        lemma_low_half(word, low, high);
    }
    stored_text_is_kept(stored, mappings);
}

/// Cutting a number to the width of an address keeps its low 32 bits.
proof fn lemma_low_half(word: u64, low: u64, high: u64)
    requires
        low <= 0xffff_ffff,
        high <= 0xffff_ffff,
        word == low + 0x1_0000_0000 * high,
        low >= 0x2b00_0000,
    ensures
        word as usize >= 0x2b00_0000,
{
    assert(low <= 0xffff_ffff && high <= 0xffff_ffff && word == low + 0x1_0000_0000 * high && low
        >= 0x2b00_0000 ==> (word as usize) >= 0x2b00_0000) by (bit_vector);
}

/// Which sources are selected. Of those with contents and an output path, the filter is matched
/// against the name as it stands in the sourcemap; without a filter all of them are. Each selected
/// source goes to its output path.
pub proof fn filter_decides(
    names: Seq<Seq<char>>,
    filter: Option<&regex::Regex>,
    preserve_paths: bool,
    file_names: Seq<Option<Seq<char>>>,
    count: int,
    index: int,
)
    requires
        0 <= count <= names.len(),
        0 <= index < names.len(),
    ensures
        ({
            let selected = selection(names, filter, preserve_paths, file_names, count);
            let is_selected = exists|k: int|
                0 <= k < selected.len() && #[trigger] selected[k].0 == index;
            let path = output_path(names[index], preserve_paths, file_names[index]);
            &&& filter matches Some(regex) ==> (is_selected <==> index < count && path is Some
                && regex_matches(*regex, names[index]))
            &&& filter is None ==> (is_selected <==> index < count && path is Some)
            &&& forall|k: int|
                #![trigger selected[k]]
                0 <= k < selected.len() && selected[k].0 == index ==> path == Some(selected[k].1)
            &&& forall|j: int, k: int|
                #![trigger selected[j], selected[k]]
                0 <= j < k < selected.len() ==> selected[j].0 < selected[k].0
        }),
{
    sources_stay_inside(names, filter, preserve_paths, file_names, count);
    let selected = selection(names, filter, preserve_paths, file_names, count);
    let path = output_path(names[index], preserve_paths, file_names[index]);
    if index < count && path is Some && passes(filter, names[index]) {
        assert(names[index] == names[index]);
        assert(selected.contains((index, path->Some_0)));
        let k = choose|k: int|
            0 <= k < selected.len() && selected[k] == (index, path->Some_0);
        assert(selected[k].0 == index);
    }
}

/// Where a source goes: with paths preserved to its sanitized path, whatever its file name, and
/// otherwise to its file name, wherever it stood, if that is the plain name of a file.
pub proof fn output_paths(name: Seq<char>, file_name: Seq<char>, other: Option<Seq<char>>)
    ensures
        output_path(name, true, other) == paths::source_path(name),
        paths::all_plain(seq![file_name]) ==> output_path(name, false, Some(file_name)) == Some(
            file_name,
        ),
        output_path(name, false, Some(file_name)) == output_path(file_name, true, other),
        output_path(name, false, None) is None,
{
    if paths::all_plain(seq![file_name]) {
        paths::plain_paths_are_kept(seq![file_name]);
        assert(paths::join(seq![file_name]) == file_name);
    }
}

impl BunSourceMap {
    /// The sources that can be written are those that have both a name and contents.
    pub proof fn complete_sources_have_both(&self, index: int)
        ensures
            0 <= index < self.complete_sources() <==> 0 <= index < self.sources@.len() && index
                < self.sources_content@.len(),
    {
    }
}

} // verus!
