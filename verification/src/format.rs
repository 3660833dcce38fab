//! The records of a Bun standalone executable and what their tags mean.

use vstd::prelude::*;

use crate::bytes;
use crate::text;

verus! {

/// The trailer that Bun puts behind the payload: `"\n---- Bun! ----\n"`.
pub const TRAILER: [u8; 16] = [
    0x0a, 0x2d, 0x2d, 0x2d, 0x2d, 0x20, 0x42, 0x75, 0x6e, 0x21, 0x20, 0x2d, 0x2d, 0x2d, 0x2d, 0x0a,
];

/// Virtual path prefix on Unix systems (stripped when extracting).
pub const BUNFS_PREFIX_UNIX: &'static str = "/$bunfs/root/";

/// Virtual path prefix on Windows systems.
pub const BUNFS_PREFIX_WIN: &'static str = "B:\\~BUN\\";

/// Virtual path prefix on Windows systems, with forward slashes.
pub const BUNFS_PREFIX_WIN_PUBLIC: &'static str = "B:/~BUN/";

/// Module name prefix used to validate struct size detection.
pub const MODULE_NAME_PREFIX: &'static str = "/$bunfs/";

/// ELF magic bytes.
pub const ELF_MAGIC: [u8; 4] = [0x7f, 0x45, 0x4c, 0x46];

/// PE magic bytes (MZ header).
pub const PE_MAGIC: [u8; 2] = [0x4d, 0x5a];

/// The signature in front of the PE header: `"PE\0\0"`.
pub const PE_SIGNATURE: [u8; 4] = [0x50, 0x45, 0, 0];

/// Mach-O 64-bit magic (little-endian).
pub const MACHO_MAGIC_64: u32 = 0xFEED_FACF;

/// Mach-O 32-bit magic (little-endian).
pub const MACHO_MAGIC_32: u32 = 0xFEED_FACE;

/// Mach-O FAT magic.
pub const MACHO_FAT_MAGIC: u32 = 0xCAFE_BABE;

/// The Mach-O load command that maps a 64-bit segment.
pub const LC_SEGMENT_64: u32 = 0x19;

/// Bun section name in PE/ELF binaries: `".bun"`.
pub const BUN_SECTION_NAME: [u8; 4] = [0x2e, 0x62, 0x75, 0x6e];

/// Mach-O segment name for Bun data: `"__BUN"`, padded with zeros.
pub const MACHO_SEGMENT_NAME: [u8; 16] = [
    0x5f, 0x5f, 0x42, 0x55, 0x4e, 0, 0, 0, 0, 0, 0, 0, 0, 0, 0, 0,
];

/// Mach-O section name for Bun data: `"__bun"`, padded with zeros.
pub const MACHO_SECTION_NAME: [u8; 16] = [
    0x5f, 0x5f, 0x62, 0x75, 0x6e, 0, 0, 0, 0, 0, 0, 0, 0, 0, 0, 0,
];

/// Candidate module struct sizes to try during auto-detection.
/// Includes sizes from all known Bun versions and Zig compiler outputs.
/// - 36: Bun <=1.1 (4 string pointers + 4 enum bytes, packed)
/// - 52: Bun >=1.2 (6 string pointers + 4 enum bytes, packed)
/// - 72: Bun 1.3.x on x86_64-linux (Zig non-extern struct with padding)
/// - Others: Various Zig compiler versions/targets may produce different padding.
pub const CANDIDATE_STRUCT_SIZES: [usize; 19] = [
    72, 52, 36, 68, 64, 60, 56, 80, 84, 88, 76, 48, 40, 44, 96, 104, 112, 120, 128,
];

/// The module struct size of the packed layout with six string pointers.
pub const SIX_POINTER_STRUCT_SIZE: usize = 52;

/// The size of the [`Offsets`] record, with or without the flags field.
/// - Bun <=1.3.x: 28 bytes (no flags field, but the C ABI pads to 32)
/// - Bun 1.4+: 32 bytes (has flags field)
///
/// Both parse identically because the padding and the flags occupy the same 4 bytes.
pub const OFFSETS_SIZE: usize = 32;

/// The record found just before the trailer.
///
/// On Bun <=1.3.x it has 28 bytes (no `flags`), padded to 32 by C ABI alignment; on Bun 1.4+
/// it has 32 bytes. 32 bytes are always read; `flags` is zero on older versions.
#[derive(Debug, Clone, Copy)]
pub struct Offsets {
    /// Total payload size (NOT including this record and the trailer).
    pub byte_count: u64,
    /// Offset within payload to the module array.
    pub modules_offset: u32,
    /// Total bytes of the module array.
    pub modules_length: u32,
    /// Index of the entry point module.
    pub entry_point_id: u32,
    /// Offset within payload to the argv string.
    pub argv_offset: u32,
    /// Length of the argv string.
    pub argv_length: u32,
    /// Feature flags bitfield (zero on Bun <=1.3.x).
    pub flags: u32,
}

/// The offsets record that the 32 bytes from `at` on hold.
pub open spec fn offsets_at(data: Seq<u8>, at: int) -> Offsets {
    Offsets {
        byte_count: bytes::le_at(data, at, 8) as u64,
        modules_offset: bytes::le_at(data, at + 8, 4) as u32,
        modules_length: bytes::le_at(data, at + 12, 4) as u32,
        entry_point_id: bytes::le_at(data, at + 16, 4) as u32,
        argv_offset: bytes::le_at(data, at + 20, 4) as u32,
        argv_length: bytes::le_at(data, at + 24, 4) as u32,
        flags: bytes::le_at(data, at + 28, 4) as u32,
    }
}

/// The feature switches that a flags field turns on, from the lowest bit up.
pub open spec fn flags_of(flags: u32) -> OffsetsFlags {
    OffsetsFlags {
        disable_default_env_files: flags % 2 == 1,
        disable_autoload_bunfig: (flags / 2) % 2 == 1,
        disable_autoload_tsconfig: (flags / 4) % 2 == 1,
        disable_autoload_package_json: (flags / 8) % 2 == 1,
    }
}

impl Offsets {
    /// Parse the record from a 32-byte little-endian slice; bytes behind these are not read.
    pub fn from_bytes(data: &[u8]) -> (offsets: Option<Self>)
        ensures
            offsets == (if data@.len() < OFFSETS_SIZE {
                None
            } else {
                Some(offsets_at(data@, 0))
            }),
    {
        if data.len() < OFFSETS_SIZE {
            return None;
        }
        Some(Offsets::read_at(data, 0))
    }

    /// The record that the 32 bytes from `at` on hold.
    pub(crate) fn read_at(data: &[u8], at: usize) -> (offsets: Self)
        requires
            at + OFFSETS_SIZE <= data.len(),
        ensures
            offsets == offsets_at(data@, at as int),
    {
        Offsets {
            byte_count: bytes::u64_at(data, at),
            modules_offset: bytes::u32_at(data, at + 8),
            modules_length: bytes::u32_at(data, at + 12),
            entry_point_id: bytes::u32_at(data, at + 16),
            argv_offset: bytes::u32_at(data, at + 20),
            argv_length: bytes::u32_at(data, at + 24),
            flags: bytes::u32_at(data, at + 28),
        }
    }

    /// Decode feature flags.
    pub fn decoded_flags(&self) -> (flags: OffsetsFlags)
        ensures
            flags == flags_of(self.flags),
    {
        let f: u32 = self.flags;
        proof {
            assert((f & 1 != 0) == (f % 2 == 1)) by (bit_vector);
            assert((f & 2 != 0) == ((f / 2) % 2 == 1)) by (bit_vector);
            assert((f & 4 != 0) == ((f / 4) % 2 == 1)) by (bit_vector);
            assert((f & 8 != 0) == ((f / 8) % 2 == 1)) by (bit_vector);
        }
        OffsetsFlags {
            disable_default_env_files: f & 1 != 0,
            disable_autoload_bunfig: f & 2 != 0,
            disable_autoload_tsconfig: f & 4 != 0,
            disable_autoload_package_json: f & 8 != 0,
        }
    }
}

/// An offsets record as it is stored.
pub open spec fn offsets_bytes(offsets: Offsets) -> Seq<u8> {
    bytes::le_bytes(offsets.byte_count as nat, 8) + bytes::le_bytes(
        offsets.modules_offset as nat,
        4,
    ) + bytes::le_bytes(offsets.modules_length as nat, 4) + bytes::le_bytes(
        offsets.entry_point_id as nat,
        4,
    ) + bytes::le_bytes(offsets.argv_offset as nat, 4) + bytes::le_bytes(
        offsets.argv_length as nat,
        4,
    ) + bytes::le_bytes(offsets.flags as nat, 4)
}

/// A stored offsets record has 32 bytes and is read back, whatever surrounds it.
pub proof fn offsets_round_trip(before: Seq<u8>, offsets: Offsets, after: Seq<u8>)
    ensures
        offsets_bytes(offsets).len() == OFFSETS_SIZE,
        offsets_at(before + offsets_bytes(offsets) + after, before.len() as int) == offsets,
{
    reveal_with_fuel(bytes::le_bound, 9);
    let whole = before + offsets_bytes(offsets) + after;
    let a = bytes::le_bytes(offsets.byte_count as nat, 8);
    let b = bytes::le_bytes(offsets.modules_offset as nat, 4);
    let c = bytes::le_bytes(offsets.modules_length as nat, 4);
    let d = bytes::le_bytes(offsets.entry_point_id as nat, 4);
    let e = bytes::le_bytes(offsets.argv_offset as nat, 4);
    let f = bytes::le_bytes(offsets.argv_length as nat, 4);
    let g = bytes::le_bytes(offsets.flags as nat, 4);
    let after_g = after;
    let after_f = g + after_g;
    let after_e = f + after_f;
    let after_d = e + after_e;
    let after_c = d + after_d;
    let after_b = c + after_c;
    let after_a = b + after_b;
    bytes::le_round_trip(before, offsets.byte_count as nat, 8, after_a);
    bytes::le_round_trip(before + a, offsets.modules_offset as nat, 4, after_b);
    bytes::le_round_trip(before + a + b, offsets.modules_length as nat, 4, after_c);
    bytes::le_round_trip(before + a + b + c, offsets.entry_point_id as nat, 4, after_d);
    bytes::le_round_trip(before + a + b + c + d, offsets.argv_offset as nat, 4, after_e);
    bytes::le_round_trip(before + a + b + c + d + e, offsets.argv_length as nat, 4, after_f);
    bytes::le_round_trip(before + a + b + c + d + e + f, offsets.flags as nat, 4, after_g);
    assert(before + a + after_a =~= whole);
    assert(before + a + b + after_b =~= whole);
    assert(before + a + b + c + after_c =~= whole);
    assert(before + a + b + c + d + after_d =~= whole);
    assert(before + a + b + c + d + e + after_e =~= whole);
    assert(before + a + b + c + d + e + f + after_f =~= whole);
    assert(before + a + b + c + d + e + f + g + after_g =~= whole);
}

/// Only the first 32 bytes of what [`Offsets::from_bytes`] is given count.
pub proof fn offsets_prefix(data: Seq<u8>, rest: Seq<u8>)
    requires
        data.len() >= OFFSETS_SIZE,
    ensures
        offsets_at(data + rest, 0) == offsets_at(data, 0),
{
    bytes::lemma_le_at_same(data + rest, data, 0, 0, 8);
    bytes::lemma_le_at_same(data + rest, data, 8, 8, 4);
    bytes::lemma_le_at_same(data + rest, data, 12, 12, 4);
    bytes::lemma_le_at_same(data + rest, data, 16, 16, 4);
    bytes::lemma_le_at_same(data + rest, data, 20, 20, 4);
    bytes::lemma_le_at_same(data + rest, data, 24, 24, 4);
    bytes::lemma_le_at_same(data + rest, data, 28, 28, 4);
}

/// Older versions leave the flags field zero, and then every switch is off; and no two
/// settings of the four switches share the same four low bits.
pub proof fn flags_determine_switches(flags: u32, other: u32)
    ensures
        flags == 0 ==> flags_of(flags) == (OffsetsFlags {
            disable_default_env_files: false,
            disable_autoload_bunfig: false,
            disable_autoload_tsconfig: false,
            disable_autoload_package_json: false,
        }),
        flags_of(flags) == flags_of(other) <==> flags % 16 == other % 16,
{
    let a = flags;
    let b = other;
    assert(a % 16 == a % 2 + 2 * ((a / 2) % 2) + 4 * ((a / 4) % 2) + 8 * ((a / 8) % 2))
        by (bit_vector);
    assert(b % 16 == b % 2 + 2 * ((b / 2) % 2) + 4 * ((b / 4) % 2) + 8 * ((b / 8) % 2))
        by (bit_vector);
    assert(a % 16 == b % 16 ==> a % 2 == b % 2 && (a / 2) % 2 == (b / 2) % 2 && (a / 4) % 2 == (b
        / 4) % 2 && (a / 8) % 2 == (b / 8) % 2) by (bit_vector);
}

/// Decoded flags of [`Offsets`] (Bun 1.4+ only; all false on older versions).
#[derive(Debug, Clone, Copy)]
pub struct OffsetsFlags {
    pub disable_default_env_files: bool,
    pub disable_autoload_bunfig: bool,
    pub disable_autoload_tsconfig: bool,
    pub disable_autoload_package_json: bool,
}

/// A pointer to a string within the payload (offset + length).
#[derive(Debug, Clone, Copy)]
pub struct StringPointer {
    pub offset: u32,
    pub length: u32,
}

/// The string pointer that the eight bytes from `at` on hold.
pub open spec fn string_pointer_at(data: Seq<u8>, at: int) -> StringPointer {
    StringPointer {
        offset: bytes::le_at(data, at, 4) as u32,
        length: bytes::le_at(data, at + 4, 4) as u32,
    }
}

impl StringPointer {
    /// Parse a pointer from an 8-byte little-endian slice; bytes behind these are not read.
    pub fn from_bytes(data: &[u8]) -> (pointer: Option<Self>)
        ensures
            pointer == (if data@.len() < 8 {
                None
            } else {
                Some(string_pointer_at(data@, 0))
            }),
    {
        if data.len() < 8 {
            return None;
        }
        Some(StringPointer::read_at(data, 0))
    }

    /// The pointer that the eight bytes from `at` on hold.
    pub(crate) fn read_at(data: &[u8], at: usize) -> (pointer: Self)
        requires
            at + 8 <= data.len(),
        ensures
            pointer == string_pointer_at(data@, at as int),
    {
        StringPointer { offset: bytes::u32_at(data, at), length: bytes::u32_at(data, at + 4) }
    }
}

/// A string pointer as it is stored.
pub open spec fn string_pointer_bytes(pointer: StringPointer) -> Seq<u8> {
    bytes::le_bytes(pointer.offset as nat, 4) + bytes::le_bytes(pointer.length as nat, 4)
}

/// A stored string pointer has eight bytes and is read back, whatever surrounds it.
pub proof fn string_pointer_round_trip(before: Seq<u8>, pointer: StringPointer, after: Seq<u8>)
    ensures
        string_pointer_bytes(pointer).len() == 8,
        string_pointer_at(
            before + string_pointer_bytes(pointer) + after,
            before.len() as int,
        ) == pointer,
{
    reveal_with_fuel(bytes::le_bound, 5);
    let whole = before + string_pointer_bytes(pointer) + after;
    let a = bytes::le_bytes(pointer.offset as nat, 4);
    let b = bytes::le_bytes(pointer.length as nat, 4);
    bytes::le_round_trip(before, pointer.offset as nat, 4, b + after);
    bytes::le_round_trip(before + a, pointer.length as nat, 4, after);
    assert(before + a + (b + after) =~= whole);
    assert(before + a + b + after =~= whole);
}

/// How the payload was embedded in the binary.
#[derive(Debug, Clone, Copy, PartialEq, Eq, Structural)]
pub enum EmbedMethod {
    /// Appended after the original binary with a trailing u64 size.
    Appended,
    /// ELF `.bun` section (Bun 1.4+).
    ElfSection { section_offset: usize },
    /// PE `.bun` section (Windows).
    PeSection { section_offset: usize },
    /// Mach-O `__BUN,__bun` section (macOS).
    MachoSection { section_offset: usize },
}

impl EmbedMethod {
    /// What [`EmbedMethod::to_string`] gives.
    pub open spec fn text(self) -> Seq<char> {
        match self {
            EmbedMethod::Appended => "Appended (legacy)"@,
            EmbedMethod::ElfSection { section_offset } => "ELF .bun section (offset 0x"@
                + text::digits(section_offset as nat, 16) + ")"@,
            EmbedMethod::PeSection { section_offset } => "PE .bun section (offset 0x"@
                + text::digits(section_offset as nat, 16) + ")"@,
            EmbedMethod::MachoSection { section_offset } =>
                "Mach-O __BUN/__bun section (offset 0x"@ + text::digits(section_offset as nat, 16)
                + ")"@,
        }
    }

    /// The method in words, with the section's position in hexadecimal.
    pub fn to_string(&self) -> (words: String)
        ensures
            words@ == self.text(),
    {
        match self {
            EmbedMethod::Appended => "Appended (legacy)".to_owned(),
            EmbedMethod::ElfSection { section_offset } => section_text(
                "ELF .bun section (offset 0x",
                *section_offset,
            ),
            EmbedMethod::PeSection { section_offset } => section_text(
                "PE .bun section (offset 0x",
                *section_offset,
            ),
            EmbedMethod::MachoSection { section_offset } => section_text(
                "Mach-O __BUN/__bun section (offset 0x",
                *section_offset,
            ),
        }
    }
}

/// `lead`, the offset in hexadecimal, and a closing bracket.
fn section_text(lead: &str, offset: usize) -> (words: String)
    ensures
        words@ == lead@ + text::digits(offset as nat, 16) + ")"@,
{
    let mut words = lead.to_owned();
    text::push_digits(&mut words, offset, 16);
    words.push(')');
    proof {
        reveal_strlit(")");
        assert(words@ =~= lead@ + text::digits(offset as nat, 16) + ")"@);
    }
    words
}

/// Heuristic Bun version range detected from the binary format.
#[derive(Debug, Clone, Copy, PartialEq, Eq, Structural)]
pub enum BunVersion {
    /// Bun <=1.1: 4 string pointers, 36-byte module struct, no flags.
    V1_0_1_1,
    /// Bun 1.2-1.3: 6 string pointers, 52-byte module struct (or Zig-padded), no flags.
    V1_2_1_3,
    /// Bun 1.4+: 6 string pointers, 52-byte module struct, has flags, ELF section.
    V1_4Plus,
    /// Unknown version; auto-detection still worked.
    Unknown,
}

/// The version range that a binary with these traits comes from.
pub open spec fn version_of(embed_method: EmbedMethod, module_struct_size: int, flags: u32) -> BunVersion {
    if embed_method != EmbedMethod::Appended || flags != 0 {
        BunVersion::V1_4Plus
    } else if module_struct_size <= 36 {
        BunVersion::V1_0_1_1
    } else {
        BunVersion::V1_2_1_3
    }
}

impl BunVersion {
    /// Heuristically detect the Bun version from format characteristics.
    pub fn detect(embed_method: &EmbedMethod, module_struct_size: usize, flags: u32) -> (version:
        Self)
        ensures
            version == version_of(*embed_method, module_struct_size as int, flags),
    {
        match embed_method {
            EmbedMethod::ElfSection { .. }
            | EmbedMethod::PeSection { .. }
            | EmbedMethod::MachoSection { .. } => BunVersion::V1_4Plus,
            EmbedMethod::Appended => {
                if flags != 0 {
                    BunVersion::V1_4Plus
                } else if module_struct_size <= 36 {
                    BunVersion::V1_0_1_1
                } else {
                    BunVersion::V1_2_1_3
                }
            },
        }
    }

    /// What [`BunVersion::as_str`] gives.
    pub open spec fn text(self) -> Seq<char> {
        match self {
            BunVersion::V1_0_1_1 => "Bun <=1.1"@,
            BunVersion::V1_2_1_3 => "Bun 1.2-1.3"@,
            BunVersion::V1_4Plus => "Bun 1.4+"@,
            BunVersion::Unknown => "Unknown"@,
        }
    }

    /// The version range in words.
    pub fn as_str(&self) -> (words: &'static str)
        ensures
            words@ == self.text(),
    {
        match self {
            BunVersion::V1_0_1_1 => "Bun <=1.1",
            BunVersion::V1_2_1_3 => "Bun 1.2-1.3",
            BunVersion::V1_4Plus => "Bun 1.4+",
            BunVersion::Unknown => "Unknown",
        }
    }

    /// The version range in words.
    pub fn to_string(&self) -> (words: String)
        ensures
            words@ == self.text(),
    {
        self.as_str().to_owned()
    }
}

/// Detection always settles on a version range.
pub proof fn version_is_known(embed_method: EmbedMethod, module_struct_size: int, flags: u32)
    ensures
        version_of(embed_method, module_struct_size, flags) != BunVersion::Unknown,
{
}

/// Module encoding type.
#[derive(Debug, Clone, Copy, PartialEq, Eq, Structural)]
pub enum Encoding {
    Binary,
    Latin1,
    Utf8,
    Unknown(u8),
}

impl Encoding {
    /// What a tag byte means.
    pub open spec fn of_tag(val: u8) -> Self {
        match val {
            0 => Encoding::Binary,
            1 => Encoding::Latin1,
            2 => Encoding::Utf8,
            other => Encoding::Unknown(other),
        }
    }

    /// What [`Encoding::as_str`] gives.
    pub open spec fn text(self) -> Seq<char> {
        match self {
            Encoding::Binary => "binary"@,
            Encoding::Latin1 => "latin1"@,
            Encoding::Utf8 => "utf8"@,
            Encoding::Unknown(_) => "unknown"@,
        }
    }

    /// The tag's name.
    pub fn as_str(&self) -> (name: &'static str)
        ensures
            name@ == self.text(),
    {
        match self {
            Encoding::Binary => "binary",
            Encoding::Latin1 => "latin1",
            Encoding::Utf8 => "utf8",
            Encoding::Unknown(_) => "unknown",
        }
    }

    /// The tag's name.
    pub fn to_string(&self) -> (name: String)
        ensures
            name@ == self.text(),
    {
        self.as_str().to_owned()
    }
}

impl From<u8> for Encoding {
    fn from(val: u8) -> (tag: Self) {
        match val {
            0 => Encoding::Binary,
            1 => Encoding::Latin1,
            2 => Encoding::Utf8,
            other => Encoding::Unknown(other),
        }
    }
}

impl vstd::std_specs::convert::FromSpecImpl<u8> for Encoding {
    open spec fn obeys_from_spec() -> bool {
        true
    }

    open spec fn from_spec(val: u8) -> Self {
        Encoding::of_tag(val)
    }
}

/// Bun file loader type (matches `bun.options.Loader` enum(u8) from Bun source).
#[derive(Debug, Clone, Copy, PartialEq, Eq, Structural)]
pub enum Loader {
    Jsx,
    Js,
    Ts,
    Tsx,
    Css,
    File,
    Json,
    Jsonc,
    Toml,
    Wasm,
    Napi,
    Base64,
    DataUrl,
    Text,
    BunSh,
    Sqlite,
    SqliteEmbedded,
    Html,
    Yaml,
    Json5,
    Md,
    Unknown(u8),
}

/// The highest loader tag that has a meaning.
pub const LAST_LOADER_TAG: u8 = 20;

impl Loader {
    /// What a tag byte means.
    pub open spec fn of_tag(val: u8) -> Self {
        match val {
            0 => Loader::Jsx,
            1 => Loader::Js,
            2 => Loader::Ts,
            3 => Loader::Tsx,
            4 => Loader::Css,
            5 => Loader::File,
            6 => Loader::Json,
            7 => Loader::Jsonc,
            8 => Loader::Toml,
            9 => Loader::Wasm,
            10 => Loader::Napi,
            11 => Loader::Base64,
            12 => Loader::DataUrl,
            13 => Loader::Text,
            14 => Loader::BunSh,
            15 => Loader::Sqlite,
            16 => Loader::SqliteEmbedded,
            17 => Loader::Html,
            18 => Loader::Yaml,
            19 => Loader::Json5,
            20 => Loader::Md,
            other => Loader::Unknown(other),
        }
    }

    /// What [`Loader::as_str`] gives.
    pub open spec fn text(self) -> Seq<char> {
        match self {
            Loader::Jsx => "jsx"@,
            Loader::Js => "js"@,
            Loader::Ts => "ts"@,
            Loader::Tsx => "tsx"@,
            Loader::Css => "css"@,
            Loader::File => "file"@,
            Loader::Json => "json"@,
            Loader::Jsonc => "jsonc"@,
            Loader::Toml => "toml"@,
            Loader::Wasm => "wasm"@,
            Loader::Napi => "napi"@,
            Loader::Base64 => "base64"@,
            Loader::DataUrl => "dataurl"@,
            Loader::Text => "text"@,
            Loader::BunSh => "bunsh"@,
            Loader::Sqlite => "sqlite"@,
            Loader::SqliteEmbedded => "sqlite_embedded"@,
            Loader::Html => "html"@,
            Loader::Yaml => "yaml"@,
            Loader::Json5 => "json5"@,
            Loader::Md => "md"@,
            Loader::Unknown(_) => "unknown"@,
        }
    }

    /// Whether the loader reads a JavaScript dialect.
    pub open spec fn reads_javascript(self) -> bool {
        self == Loader::Js || self == Loader::Jsx || self == Loader::Ts || self == Loader::Tsx
    }

    /// The tag's name.
    pub fn as_str(&self) -> (name: &'static str)
        ensures
            name@ == self.text(),
    {
        match self {
            Loader::Jsx => "jsx",
            Loader::Js => "js",
            Loader::Ts => "ts",
            Loader::Tsx => "tsx",
            Loader::Css => "css",
            Loader::File => "file",
            Loader::Json => "json",
            Loader::Jsonc => "jsonc",
            Loader::Toml => "toml",
            Loader::Wasm => "wasm",
            Loader::Napi => "napi",
            Loader::Base64 => "base64",
            Loader::DataUrl => "dataurl",
            Loader::Text => "text",
            Loader::BunSh => "bunsh",
            Loader::Sqlite => "sqlite",
            Loader::SqliteEmbedded => "sqlite_embedded",
            Loader::Html => "html",
            Loader::Yaml => "yaml",
            Loader::Json5 => "json5",
            Loader::Md => "md",
            Loader::Unknown(_) => "unknown",
        }
    }

    /// Whether the loader reads a JavaScript dialect.
    pub fn is_javascript(&self) -> (yes: bool)
        ensures
            yes == self.reads_javascript(),
    {
        matches!(self, Loader::Js | Loader::Jsx | Loader::Ts | Loader::Tsx)
    }

    /// The tag's name.
    pub fn to_string(&self) -> (name: String)
        ensures
            name@ == self.text(),
    {
        self.as_str().to_owned()
    }
}

impl From<u8> for Loader {
    fn from(val: u8) -> (tag: Self) {
        match val {
            0 => Loader::Jsx,
            1 => Loader::Js,
            2 => Loader::Ts,
            3 => Loader::Tsx,
            4 => Loader::Css,
            5 => Loader::File,
            6 => Loader::Json,
            7 => Loader::Jsonc,
            8 => Loader::Toml,
            9 => Loader::Wasm,
            10 => Loader::Napi,
            11 => Loader::Base64,
            12 => Loader::DataUrl,
            13 => Loader::Text,
            14 => Loader::BunSh,
            15 => Loader::Sqlite,
            16 => Loader::SqliteEmbedded,
            17 => Loader::Html,
            18 => Loader::Yaml,
            19 => Loader::Json5,
            20 => Loader::Md,
            other => Loader::Unknown(other),
        }
    }
}

impl vstd::std_specs::convert::FromSpecImpl<u8> for Loader {
    open spec fn obeys_from_spec() -> bool {
        true
    }

    open spec fn from_spec(val: u8) -> Self {
        Loader::of_tag(val)
    }
}

/// Module format.
#[derive(Debug, Clone, Copy, PartialEq, Eq, Structural)]
pub enum ModuleFormat {
    Unset,
    Esm,
    Cjs,
    Unknown(u8),
}

impl ModuleFormat {
    /// What a tag byte means.
    pub open spec fn of_tag(val: u8) -> Self {
        match val {
            0 => ModuleFormat::Unset,
            1 => ModuleFormat::Esm,
            2 => ModuleFormat::Cjs,
            other => ModuleFormat::Unknown(other),
        }
    }

    /// What [`ModuleFormat::as_str`] gives.
    pub open spec fn text(self) -> Seq<char> {
        match self {
            ModuleFormat::Unset => "none"@,
            ModuleFormat::Esm => "esm"@,
            ModuleFormat::Cjs => "cjs"@,
            ModuleFormat::Unknown(_) => "unknown"@,
        }
    }

    /// The tag's name.
    pub fn as_str(&self) -> (name: &'static str)
        ensures
            name@ == self.text(),
    {
        match self {
            ModuleFormat::Unset => "none",
            ModuleFormat::Esm => "esm",
            ModuleFormat::Cjs => "cjs",
            ModuleFormat::Unknown(_) => "unknown",
        }
    }

    /// The tag's name.
    pub fn to_string(&self) -> (name: String)
        ensures
            name@ == self.text(),
    {
        self.as_str().to_owned()
    }
}

impl From<u8> for ModuleFormat {
    fn from(val: u8) -> (tag: Self) {
        match val {
            0 => ModuleFormat::Unset,
            1 => ModuleFormat::Esm,
            2 => ModuleFormat::Cjs,
            other => ModuleFormat::Unknown(other),
        }
    }
}

impl vstd::std_specs::convert::FromSpecImpl<u8> for ModuleFormat {
    open spec fn obeys_from_spec() -> bool {
        true
    }

    open spec fn from_spec(val: u8) -> Self {
        ModuleFormat::of_tag(val)
    }
}

/// Module side (server vs client).
#[derive(Debug, Clone, Copy, PartialEq, Eq, Structural)]
pub enum FileSide {
    Server,
    Client,
    Unknown(u8),
}

impl FileSide {
    /// What a tag byte means.
    pub open spec fn of_tag(val: u8) -> Self {
        match val {
            0 => FileSide::Server,
            1 => FileSide::Client,
            other => FileSide::Unknown(other),
        }
    }

    /// What [`FileSide::as_str`] gives.
    pub open spec fn text(self) -> Seq<char> {
        match self {
            FileSide::Server => "server"@,
            FileSide::Client => "client"@,
            FileSide::Unknown(_) => "unknown"@,
        }
    }

    /// The tag's name.
    pub fn as_str(&self) -> (name: &'static str)
        ensures
            name@ == self.text(),
    {
        match self {
            FileSide::Server => "server",
            FileSide::Client => "client",
            FileSide::Unknown(_) => "unknown",
        }
    }

    /// The tag's name.
    pub fn to_string(&self) -> (name: String)
        ensures
            name@ == self.text(),
    {
        self.as_str().to_owned()
    }
}

impl From<u8> for FileSide {
    fn from(val: u8) -> (tag: Self) {
        match val {
            0 => FileSide::Server,
            1 => FileSide::Client,
            other => FileSide::Unknown(other),
        }
    }
}

impl vstd::std_specs::convert::FromSpecImpl<u8> for FileSide {
    open spec fn obeys_from_spec() -> bool {
        true
    }

    open spec fn from_spec(val: u8) -> Self {
        FileSide::of_tag(val)
    }
}

/// Extracted module information.
#[derive(Debug)]
pub struct Module {
    pub index: usize,
    pub name: String,
    pub contents: Vec<u8>,
    pub sourcemap: Option<Vec<u8>>,
    /// Bun bytecode of the module, as stored.
    pub bytecode: Option<Vec<u8>>,
    /// Metadata that belongs to the bytecode, as stored.
    pub module_info: Option<Vec<u8>>,
    /// The path under which the bytecode was generated.
    pub bytecode_origin_path: Option<String>,
    pub encoding: Encoding,
    pub loader: Loader,
    pub module_format: ModuleFormat,
    pub side: FileSide,
    pub is_entry_point: bool,
}

/// A [`Module`] over mathematical values.
#[verifier::ext_equal]
pub struct ModuleView {
    pub index: int,
    pub name: Seq<char>,
    pub contents: Seq<u8>,
    pub sourcemap: Option<Seq<u8>>,
    pub bytecode: Option<Seq<u8>>,
    pub module_info: Option<Seq<u8>>,
    pub bytecode_origin_path: Option<Seq<char>>,
    pub encoding: Encoding,
    pub loader: Loader,
    pub module_format: ModuleFormat,
    pub side: FileSide,
    pub is_entry_point: bool,
}

/// The bytes of an optional vector.
pub open spec fn optional_bytes(bytes: Option<Vec<u8>>) -> Option<Seq<u8>> {
    match bytes {
        Some(v) => Some(v@),
        None => None,
    }
}

/// The characters of an optional string.
pub open spec fn optional_text(text: Option<String>) -> Option<Seq<char>> {
    match text {
        Some(s) => Some(s@),
        None => None,
    }
}

impl View for Module {
    type V = ModuleView;

    open spec fn view(&self) -> ModuleView {
        ModuleView {
            index: self.index as int,
            name: self.name@,
            contents: self.contents@,
            sourcemap: optional_bytes(self.sourcemap),
            bytecode: optional_bytes(self.bytecode),
            module_info: optional_bytes(self.module_info),
            bytecode_origin_path: optional_text(self.bytecode_origin_path),
            encoding: self.encoding,
            loader: self.loader,
            module_format: self.module_format,
            side: self.side,
            is_entry_point: self.is_entry_point,
        }
    }
}

/// `name` without the first of Bun's virtual prefixes that it begins with.
pub open spec fn relative_name(name: Seq<char>) -> Seq<char> {
    match text::without_prefix(name, BUNFS_PREFIX_UNIX@) {
        Some(rest) => rest,
        None => match text::without_prefix(name, BUNFS_PREFIX_WIN@) {
            Some(rest) => rest,
            None => match text::without_prefix(name, MODULE_NAME_PREFIX@) {
                Some(rest) => rest,
                None => name,
            },
        },
    }
}

/// The kind of file that a name's extension stands for.
pub open spec fn extension_type(name: Seq<char>) -> Seq<char> {
    if ".js"@.is_suffix_of(name) || ".mjs"@.is_suffix_of(name) || ".cjs"@.is_suffix_of(name) {
        "JavaScript"@
    } else if ".ts"@.is_suffix_of(name) || ".mts"@.is_suffix_of(name) || ".cts"@.is_suffix_of(
        name,
    ) {
        "TypeScript"@
    } else if ".json"@.is_suffix_of(name) {
        "JSON"@
    } else if ".wasm"@.is_suffix_of(name) {
        "WebAssembly"@
    } else if ".node"@.is_suffix_of(name) {
        "Native addon"@
    } else if ".css"@.is_suffix_of(name) {
        "CSS"@
    } else if ".html"@.is_suffix_of(name) {
        "HTML"@
    } else if ".txt"@.is_suffix_of(name) {
        "Text"@
    } else if ".toml"@.is_suffix_of(name) {
        "TOML"@
    } else if ".scm"@.is_suffix_of(name) {
        "Scheme/Query"@
    } else if ".sql"@.is_suffix_of(name) || ".sqlite"@.is_suffix_of(name) {
        "SQLite"@
    } else {
        "Unknown"@
    }
}

/// The kind of a file, by its loader where that reads a JavaScript dialect, and else by the
/// extension of its name.
pub open spec fn kind_of(loader: Loader, name: Seq<char>) -> Seq<char> {
    if loader == Loader::Ts || loader == Loader::Tsx {
        "TypeScript"@
    } else if loader == Loader::Js || loader == Loader::Jsx {
        "JavaScript"@
    } else {
        extension_type(name)
    }
}

impl Module {
    /// Strip the virtual path prefix to get a relative filesystem path.
    pub fn relative_path(&self) -> (path: &str)
        ensures
            path@ == relative_name(self.name@),
    {
        match text::strip_prefix(self.name.as_str(), BUNFS_PREFIX_UNIX) {
            Some(rest) => rest,
            None => match text::strip_prefix(self.name.as_str(), BUNFS_PREFIX_WIN) {
                Some(rest) => rest,
                None => match text::strip_prefix(self.name.as_str(), MODULE_NAME_PREFIX) {
                    Some(rest) => rest,
                    None => self.name.as_str(),
                },
            },
        }
    }

    /// Guess the file type from the extension and loader.
    pub fn file_type(&self) -> (kind: &'static str)
        ensures
            kind@ == kind_of(self.loader, self.name@),
    {
        if self.loader.is_javascript() {
            return match self.loader {
                Loader::Ts | Loader::Tsx => "TypeScript",
                _ => "JavaScript",
            };
        }
        let name = text::chars_of(self.name.as_str());
        if text::ends_with(&name, ".js") || text::ends_with(&name, ".mjs") || text::ends_with(
            &name,
            ".cjs",
        ) {
            "JavaScript"
        } else if text::ends_with(&name, ".ts") || text::ends_with(&name, ".mts")
            || text::ends_with(&name, ".cts") {
            "TypeScript"
        } else if text::ends_with(&name, ".json") {
            "JSON"
        } else if text::ends_with(&name, ".wasm") {
            "WebAssembly"
        } else if text::ends_with(&name, ".node") {
            "Native addon"
        } else if text::ends_with(&name, ".css") {
            "CSS"
        } else if text::ends_with(&name, ".html") {
            "HTML"
        } else if text::ends_with(&name, ".txt") {
            "Text"
        } else if text::ends_with(&name, ".toml") {
            "TOML"
        } else if text::ends_with(&name, ".scm") {
            "Scheme/Query"
        } else if text::ends_with(&name, ".sql") || text::ends_with(&name, ".sqlite") {
            "SQLite"
        } else {
            "Unknown"
        }
    }
}

/// Where the fields of an offsets record lie, and that each is stored with its lowest byte first.
pub proof fn offsets_fields(data: Seq<u8>, at: int)
    ensures
        ({
            let offsets = offsets_at(data, at);
            &&& offsets.byte_count == bytes::le_at(data, at, 8)
            &&& offsets.modules_offset == data[at + 8] + 0x100 * data[at + 9] + 0x1_0000 * data[at
                + 10] + 0x100_0000 * data[at + 11]
            &&& offsets.modules_length == data[at + 12] + 0x100 * data[at + 13] + 0x1_0000
                * data[at + 14] + 0x100_0000 * data[at + 15]
            &&& offsets.entry_point_id == data[at + 16] + 0x100 * data[at + 17] + 0x1_0000
                * data[at + 18] + 0x100_0000 * data[at + 19]
            &&& offsets.argv_offset == data[at + 20] + 0x100 * data[at + 21] + 0x1_0000 * data[at
                + 22] + 0x100_0000 * data[at + 23]
            &&& offsets.argv_length == data[at + 24] + 0x100 * data[at + 25] + 0x1_0000 * data[at
                + 26] + 0x100_0000 * data[at + 27]
            &&& offsets.flags == data[at + 28] + 0x100 * data[at + 29] + 0x1_0000 * data[at + 30]
                + 0x100_0000 * data[at + 31]
        }),
{
    bytes::lowest_byte_first(data, at);
    bytes::lowest_byte_first(data, at + 8);
    bytes::lowest_byte_first(data, at + 12);
    bytes::lowest_byte_first(data, at + 16);
    bytes::lowest_byte_first(data, at + 20);
    bytes::lowest_byte_first(data, at + 24);
    bytes::lowest_byte_first(data, at + 28);
}

/// A string pointer is an offset and, behind it, a length.
pub proof fn string_pointer_fields(data: Seq<u8>, at: int)
    ensures
        string_pointer_at(data, at).offset == data[at] + 0x100 * data[at + 1] + 0x1_0000 * data[at
            + 2] + 0x100_0000 * data[at + 3],
        string_pointer_at(data, at).length == data[at + 4] + 0x100 * data[at + 5] + 0x1_0000
            * data[at + 6] + 0x100_0000 * data[at + 7],
{
    bytes::lowest_byte_first(data, at);
    bytes::lowest_byte_first(data, at + 4);
}

/// Each switch is one bit of the flags, and no other bit turns it on or off.
pub proof fn switches_are_bits(flags: u32)
    ensures
        flags_of(flags).disable_default_env_files == (flags & 1 != 0),
        flags_of(flags).disable_autoload_bunfig == (flags & 2 != 0),
        flags_of(flags).disable_autoload_tsconfig == (flags & 4 != 0),
        flags_of(flags).disable_autoload_package_json == (flags & 8 != 0),
{
    let f = flags;
    assert((f & 1 != 0) == (f % 2 == 1)) by (bit_vector);
    assert((f & 2 != 0) == ((f / 2) % 2 == 1)) by (bit_vector);
    assert((f & 4 != 0) == ((f / 4) % 2 == 1)) by (bit_vector);
    assert((f & 8 != 0) == ((f / 8) % 2 == 1)) by (bit_vector);
}

/// The names of the loaders, in the order of their tags.
pub open spec fn loader_names() -> Seq<Seq<char>> {
    seq![
        "jsx"@, "js"@, "ts"@, "tsx"@, "css"@, "file"@, "json"@, "jsonc"@, "toml"@, "wasm"@,
        "napi"@, "base64"@, "dataurl"@, "text"@, "bunsh"@, "sqlite"@, "sqlite_embedded"@,
        "html"@, "yaml"@, "json5"@, "md"@,
    ]
}

/// The loaders, in the order of their tags.
pub open spec fn loaders() -> Seq<Loader> {
    seq![
        Loader::Jsx, Loader::Js, Loader::Ts, Loader::Tsx, Loader::Css, Loader::File, Loader::Json,
        Loader::Jsonc, Loader::Toml, Loader::Wasm, Loader::Napi, Loader::Base64, Loader::DataUrl,
        Loader::Text, Loader::BunSh, Loader::Sqlite, Loader::SqliteEmbedded, Loader::Html,
        Loader::Yaml, Loader::Json5, Loader::Md,
    ]
}

/// What loader a tag stands for, and how it is printed. Tags behind the last one with a meaning are
/// kept, and printed as unknown. A loader reads JavaScript exactly if its tag is one of the first
/// four.
pub proof fn loader_tags(tag: u8)
    ensures
        tag <= 20 ==> Loader::of_tag(tag) == loaders()[tag as int] && Loader::of_tag(tag).text()
            == loader_names()[tag as int],
        tag > 20 ==> Loader::of_tag(tag) == Loader::Unknown(tag) && Loader::of_tag(tag).text()
            == "unknown"@,
        Loader::of_tag(tag).reads_javascript() <==> tag < 4,
        LAST_LOADER_TAG == 20,
{
}

/// What the tags of encodings, module formats and sides stand for, and how they are printed.
pub proof fn other_tags(tag: u8)
    ensures
        tag <= 2 ==> Encoding::of_tag(tag) == seq![
            Encoding::Binary,
            Encoding::Latin1,
            Encoding::Utf8,
        ][tag as int] && Encoding::of_tag(tag).text() == seq!["binary"@, "latin1"@, "utf8"@][tag as
            int],
        tag > 2 ==> Encoding::of_tag(tag) == Encoding::Unknown(tag) && Encoding::of_tag(tag).text()
            == "unknown"@,
        tag <= 2 ==> ModuleFormat::of_tag(tag) == seq![
            ModuleFormat::Unset,
            ModuleFormat::Esm,
            ModuleFormat::Cjs,
        ][tag as int] && ModuleFormat::of_tag(tag).text() == seq!["none"@, "esm"@, "cjs"@][tag as
            int],
        tag > 2 ==> ModuleFormat::of_tag(tag) == ModuleFormat::Unknown(tag)
            && ModuleFormat::of_tag(tag).text() == "unknown"@,
        tag <= 1 ==> FileSide::of_tag(tag) == seq![FileSide::Server, FileSide::Client][tag as int]
            && FileSide::of_tag(tag).text() == seq!["server"@, "client"@][tag as int],
        tag > 1 ==> FileSide::of_tag(tag) == FileSide::Unknown(tag) && FileSide::of_tag(tag).text()
            == "unknown"@,
{
}

/// Which version range the traits of an executable tell: a payload in a section or with flags comes
/// from Bun 1.4 or later, and without either the size of the module records decides.
pub proof fn versions_are_told(method: EmbedMethod, size: int, flags: u32)
    ensures
        method is ElfSection || method is PeSection || method is MachoSection || flags > 0
            ==> version_of(method, size, flags).text() == "Bun 1.4+"@,
        method is Appended && flags == 0 && size <= 36 ==> version_of(method, size, flags).text()
            == "Bun <=1.1"@,
        method is Appended && flags == 0 && size > 36 ==> version_of(method, size, flags).text()
            == "Bun 1.2-1.3"@,
{
}

/// How the embedding is printed: what kind of section, and its offset in hexadecimal.
pub proof fn method_texts(method: EmbedMethod)
    ensures
        method is Appended ==> method.text() == "Appended (legacy)"@,
        method matches EmbedMethod::ElfSection { section_offset } ==> exists|hex: Seq<char>|
            #[trigger] text::spells(hex, section_offset as int, 16) && method.text()
                == "ELF .bun section (offset 0x"@ + hex + ")"@,
        method matches EmbedMethod::PeSection { section_offset } ==> exists|hex: Seq<char>|
            #[trigger] text::spells(hex, section_offset as int, 16) && method.text()
                == "PE .bun section (offset 0x"@ + hex + ")"@,
        method matches EmbedMethod::MachoSection { section_offset } ==> exists|hex: Seq<char>|
            #[trigger] text::spells(hex, section_offset as int, 16) && method.text()
                == "Mach-O __BUN/__bun section (offset 0x"@ + hex + ")"@,
{
    let offset = match method {
        EmbedMethod::Appended => 0,
        EmbedMethod::ElfSection { section_offset } => section_offset as nat,
        EmbedMethod::PeSection { section_offset } => section_offset as nat,
        EmbedMethod::MachoSection { section_offset } => section_offset as nat,
    };
    text::digits_spell(offset, 16);
}

/// A text begins with its front, and what is left behind the front is the rest.
proof fn lemma_front_off(front: Seq<char>, rest: Seq<char>)
    ensures
        text::without_prefix(front + rest, front) == Some(rest),
{
    assert((front + rest).subrange(0, front.len() as int) =~= front);
    assert((front + rest).skip(front.len() as int) =~= rest);
}

/// Whether two texts differ within the length of the first, so that it is no front of the second.
proof fn lemma_no_front(front: Seq<char>, name: Seq<char>, at: int)
    requires
        0 <= at < front.len(),
        at < name.len() ==> front[at] != name[at],
    ensures
        text::without_prefix(name, front) is None,
{
    if front.is_prefix_of(name) {
        assert(name.subrange(0, front.len() as int)[at] == name[at]);
    }
}

/// Behind each of Bun's virtual prefixes stands the relative path of a module; a name without one
/// is its own.
pub proof fn relative_names(rest: Seq<char>)
    ensures
        relative_name("/$bunfs/root/"@ + rest) == rest,
        relative_name("B:\\~BUN\\"@ + rest) == rest,
        !"root/"@.is_prefix_of(rest) ==> relative_name("/$bunfs/"@ + rest) == rest,
        !"/$bunfs/"@.is_prefix_of(rest) && !"B:\\~BUN\\"@.is_prefix_of(rest) ==> relative_name(rest)
            == rest,
{
    reveal_strlit("/$bunfs/root/");
    reveal_strlit("/$bunfs/");
    reveal_strlit("B:\\~BUN\\");
    reveal_strlit("root/");
    lemma_front_off("/$bunfs/root/"@, rest);
    lemma_front_off("B:\\~BUN\\"@, rest);
    lemma_front_off("/$bunfs/"@, rest);
    lemma_no_front("/$bunfs/root/"@, "B:\\~BUN\\"@ + rest, 0);
    lemma_no_front("B:\\~BUN\\"@, "/$bunfs/"@ + rest, 0);
    let short = "/$bunfs/"@ + rest;
    if "/$bunfs/root/"@.is_prefix_of(short) {
        assert(rest.len() >= 5);
        assert forall|i: int| 0 <= i < 5 implies rest[i] == "root/"@[i] by {
            assert(short.subrange(0, 13)[8 + i] == short[8 + i]);
        }
        assert("root/"@ =~= rest.subrange(0, 5));
    }
    if "/$bunfs/root/"@.is_prefix_of(rest) {
        assert forall|i: int| 0 <= i < 8 implies rest[i] == "/$bunfs/"@[i] by {
            assert(rest.subrange(0, 13)[i] == rest[i]);
        }
        assert("/$bunfs/"@ =~= rest.subrange(0, 8));
    }
}

/// What kind of file a module is. The loaders for JavaScript and TypeScript decide first; with any
/// other loader the name decides by how it ends.
pub proof fn kinds_of_files(loader: Loader, name: Seq<char>)
    ensures
        loader == Loader::Js || loader == Loader::Jsx ==> kind_of(loader, name) == "JavaScript"@,
        loader == Loader::Ts || loader == Loader::Tsx ==> kind_of(loader, name) == "TypeScript"@,
        loader != Loader::Js && loader != Loader::Jsx && loader != Loader::Ts && loader
            != Loader::Tsx ==> {
            &&& ".js"@.is_suffix_of(name) ==> kind_of(loader, name) == "JavaScript"@
            &&& ".mjs"@.is_suffix_of(name) ==> kind_of(loader, name) == "JavaScript"@
            &&& ".cjs"@.is_suffix_of(name) ==> kind_of(loader, name) == "JavaScript"@
            &&& ".ts"@.is_suffix_of(name) ==> kind_of(loader, name) == "TypeScript"@
            &&& ".mts"@.is_suffix_of(name) ==> kind_of(loader, name) == "TypeScript"@
            &&& ".cts"@.is_suffix_of(name) ==> kind_of(loader, name) == "TypeScript"@
            &&& ".json"@.is_suffix_of(name) ==> kind_of(loader, name) == "JSON"@
            &&& ".wasm"@.is_suffix_of(name) ==> kind_of(loader, name) == "WebAssembly"@
            &&& ".node"@.is_suffix_of(name) ==> kind_of(loader, name) == "Native addon"@
            &&& ".css"@.is_suffix_of(name) ==> kind_of(loader, name) == "CSS"@
            &&& ".html"@.is_suffix_of(name) ==> kind_of(loader, name) == "HTML"@
            &&& ".txt"@.is_suffix_of(name) ==> kind_of(loader, name) == "Text"@
            &&& ".toml"@.is_suffix_of(name) ==> kind_of(loader, name) == "TOML"@
            &&& ".scm"@.is_suffix_of(name) ==> kind_of(loader, name) == "Scheme/Query"@
            &&& ".sql"@.is_suffix_of(name) ==> kind_of(loader, name) == "SQLite"@
            &&& ".sqlite"@.is_suffix_of(name) ==> kind_of(loader, name) == "SQLite"@
            &&& kind_of(loader, name) != "Unknown"@ ==> {
                ||| ".js"@.is_suffix_of(name)
                ||| ".mjs"@.is_suffix_of(name)
                ||| ".cjs"@.is_suffix_of(name)
                ||| ".ts"@.is_suffix_of(name)
                ||| ".mts"@.is_suffix_of(name)
                ||| ".cts"@.is_suffix_of(name)
                ||| ".json"@.is_suffix_of(name)
                ||| ".wasm"@.is_suffix_of(name)
                ||| ".node"@.is_suffix_of(name)
                ||| ".css"@.is_suffix_of(name)
                ||| ".html"@.is_suffix_of(name)
                ||| ".txt"@.is_suffix_of(name)
                ||| ".toml"@.is_suffix_of(name)
                ||| ".scm"@.is_suffix_of(name)
                ||| ".sql"@.is_suffix_of(name)
                ||| ".sqlite"@.is_suffix_of(name)
            }
        },
{
    lemma_last_characters(name);
}

/// How the last characters tell the known endings apart.
proof fn lemma_last_characters(name: Seq<char>)
    ensures
        ({
            let n = name.len() as int;
            let at = |back: int| name[n - back];
            &&& ".js"@.is_suffix_of(name) ==> n >= 3 && at(1) == 's' && at(2) == 'j' && at(3) == '.'
            &&& ".mjs"@.is_suffix_of(name) ==> at(1) == 's' && at(2) == 'j' && at(3) == 'm'
            &&& ".cjs"@.is_suffix_of(name) ==> at(1) == 's' && at(2) == 'j' && at(3) == 'c'
            &&& ".ts"@.is_suffix_of(name) ==> at(1) == 's' && at(2) == 't' && at(3) == '.'
            &&& ".mts"@.is_suffix_of(name) ==> at(1) == 's' && at(2) == 't' && at(3) == 'm'
            &&& ".cts"@.is_suffix_of(name) ==> at(1) == 's' && at(2) == 't' && at(3) == 'c'
            &&& ".json"@.is_suffix_of(name) ==> at(1) == 'n'
            &&& ".wasm"@.is_suffix_of(name) ==> at(1) == 'm' && at(2) == 's'
            &&& ".node"@.is_suffix_of(name) ==> at(1) == 'e' && at(2) == 'd'
            &&& ".css"@.is_suffix_of(name) ==> at(1) == 's' && at(2) == 's'
            &&& ".html"@.is_suffix_of(name) ==> at(1) == 'l' && at(2) == 'm' && at(3) == 't'
            &&& ".txt"@.is_suffix_of(name) ==> at(1) == 't'
            &&& ".toml"@.is_suffix_of(name) ==> at(1) == 'l' && at(2) == 'm' && at(3) == 'o'
            &&& ".scm"@.is_suffix_of(name) ==> at(1) == 'm' && at(2) == 'c'
            &&& ".sql"@.is_suffix_of(name) ==> at(1) == 'l' && at(2) == 'q'
            &&& ".sqlite"@.is_suffix_of(name) ==> at(1) == 'e' && at(2) == 't'
        }),
{
    reveal_strlit(".js");
    reveal_strlit(".mjs");
    reveal_strlit(".cjs");
    reveal_strlit(".ts");
    reveal_strlit(".mts");
    reveal_strlit(".cts");
    reveal_strlit(".json");
    reveal_strlit(".wasm");
    reveal_strlit(".node");
    reveal_strlit(".css");
    reveal_strlit(".html");
    reveal_strlit(".txt");
    reveal_strlit(".toml");
    reveal_strlit(".scm");
    reveal_strlit(".sql");
    reveal_strlit(".sqlite");
    lemma_suffix(".js"@, name);
    lemma_suffix(".mjs"@, name);
    lemma_suffix(".cjs"@, name);
    lemma_suffix(".ts"@, name);
    lemma_suffix(".mts"@, name);
    lemma_suffix(".cts"@, name);
    lemma_suffix(".json"@, name);
    lemma_suffix(".wasm"@, name);
    lemma_suffix(".node"@, name);
    lemma_suffix(".css"@, name);
    lemma_suffix(".html"@, name);
    lemma_suffix(".txt"@, name);
    lemma_suffix(".toml"@, name);
    lemma_suffix(".scm"@, name);
    lemma_suffix(".sql"@, name);
    lemma_suffix(".sqlite"@, name);
}

/// The last three characters of an ending are those of the text that ends with it.
proof fn lemma_suffix(ending: Seq<char>, name: Seq<char>)
    requires
        ending.len() >= 3,
    ensures
        ending.is_suffix_of(name) ==> {
            &&& name.len() >= ending.len()
            &&& name[name.len() - 1] == ending[ending.len() - 1]
            &&& name[name.len() - 2] == ending[ending.len() - 2]
            &&& name[name.len() - 3] == ending[ending.len() - 3]
        },
{
    if ending.is_suffix_of(name) {
        let end = name.subrange(name.len() - ending.len(), name.len() as int);
        assert(end[ending.len() - 1] == name[name.len() - 1]);
        assert(end[ending.len() - 2] == name[name.len() - 2]);
        assert(end[ending.len() - 3] == name[name.len() - 3]);
    }
}

} // verus!
