//! The ways in which a binary or a sourcemap is refused.

use vstd::prelude::*;

verus! {

/// Makes `serde_json::Error` a type that a field can hold. Nothing is claimed of its values.
#[verifier::external_type_specification]
#[verifier::external_body]
pub struct ExJsonError(serde_json::Error);

/// Why a binary or a sourcemap could not be read or written out.
#[derive(Debug)]
pub enum ExtractError {
    /// The file cannot hold a Bun payload.
    FileTooSmall { size: usize },
    /// No Bun trailer or section: this may not be a Bun-compiled binary.
    TrailerNotFound,
    /// The offsets record does not fit the data around it.
    InvalidOffsets { byte_count: u64 },
    /// No known size of a module record fits the module table.
    ModuleSizeDetectionFailed { modules_length: u32 },
    /// A string pointer leaves the payload.
    StringOutOfBounds { offset: u32, length: u32, payload_size: usize },
    /// The name of a module is not UTF-8.
    InvalidModuleName { index: usize },
    /// The container has no `.bun` section.
    BunSectionNotFound,
    /// The ELF header or its section table is corrupt.
    InvalidElf,
    /// The PE header or its section table is corrupt.
    InvalidPe,
    /// The Mach-O header or its load commands are corrupt.
    InvalidMachO,
    /// The module record at this index leaves the data.
    CorruptModuleGraph { index: usize },
    /// A position does not fit in the address space.
    OffsetOverflow,
    /// The sourcemap blob is malformed.
    SourceMapParseFailed { reason: &'static str },
    /// A compressed source could not be decompressed.
    ZstdDecompressFailed(String),
    /// The sourcemap could not be written as JSON.
    JsonSerializeFailed(serde_json::Error),
}

/// What an [`ExtractError`] says, over mathematical values.
pub enum Failure {
    FileTooSmall { size: int },
    TrailerNotFound,
    InvalidOffsets { byte_count: int },
    ModuleSizeDetectionFailed { modules_length: int },
    StringOutOfBounds { offset: int, length: int, payload_size: int },
    InvalidModuleName { index: int },
    BunSectionNotFound,
    InvalidElf,
    InvalidPe,
    InvalidMachO,
    CorruptModuleGraph { index: int },
    OffsetOverflow,
    SourceMapParseFailed { reason: Seq<char> },
    ZstdDecompressFailed { message: Seq<char> },
    JsonSerializeFailed { error: serde_json::Error },
}

impl View for ExtractError {
    type V = Failure;

    open spec fn view(&self) -> Failure {
        match *self {
            ExtractError::FileTooSmall { size } => Failure::FileTooSmall { size: size as int },
            ExtractError::TrailerNotFound => Failure::TrailerNotFound,
            ExtractError::InvalidOffsets { byte_count } => Failure::InvalidOffsets {
                byte_count: byte_count as int,
            },
            ExtractError::ModuleSizeDetectionFailed { modules_length } =>
                Failure::ModuleSizeDetectionFailed { modules_length: modules_length as int },
            ExtractError::StringOutOfBounds { offset, length, payload_size } =>
                Failure::StringOutOfBounds {
                    offset: offset as int,
                    length: length as int,
                    payload_size: payload_size as int,
                },
            ExtractError::InvalidModuleName { index } => Failure::InvalidModuleName {
                index: index as int,
            },
            ExtractError::BunSectionNotFound => Failure::BunSectionNotFound,
            ExtractError::InvalidElf => Failure::InvalidElf,
            ExtractError::InvalidPe => Failure::InvalidPe,
            ExtractError::InvalidMachO => Failure::InvalidMachO,
            ExtractError::CorruptModuleGraph { index } => Failure::CorruptModuleGraph {
                index: index as int,
            },
            ExtractError::OffsetOverflow => Failure::OffsetOverflow,
            ExtractError::SourceMapParseFailed { reason } => Failure::SourceMapParseFailed {
                reason: reason@,
            },
            ExtractError::ZstdDecompressFailed(message) => Failure::ZstdDecompressFailed {
                message: message@,
            },
            ExtractError::JsonSerializeFailed(error) => Failure::JsonSerializeFailed { error },
        }
    }
}

impl From<serde_json::Error> for ExtractError {
    fn from(error: serde_json::Error) -> (wrapped: ExtractError) {
        ExtractError::JsonSerializeFailed(error)
    }
}

impl vstd::std_specs::convert::FromSpecImpl<serde_json::Error> for ExtractError {
    open spec fn obeys_from_spec() -> bool {
        true
    }

    open spec fn from_spec(error: serde_json::Error) -> ExtractError {
        ExtractError::JsonSerializeFailed(error)
    }
}

/// The results `item(0)`, `item(1)`, .. `item(count - 1)` in order, or the first failure
/// among them.
pub open spec fn collect<T>(item: spec_fn(int) -> Result<T, Failure>, count: int) -> Result<
    Seq<T>,
    Failure,
>
    decreases count,
{
    if count <= 0 {
        Ok(Seq::empty())
    } else {
        match collect(item, count - 1) {
            Err(failure) => Err(failure),
            Ok(items) => match item(count - 1) {
                Err(failure) => Err(failure),
                Ok(last) => Ok(items.push(last)),
            },
        }
    }
}

/// A collection that holds has one entry per index, each the result at that index.
pub proof fn lemma_collect_items<T>(item: spec_fn(int) -> Result<T, Failure>, count: int)
    requires
        0 <= count,
    ensures
        match collect(item, count) {
            Ok(items) => items.len() == count && forall|i: int|
                #![trigger items[i]]
                #![trigger item(i)]
                0 <= i < count ==> item(i) == Ok::<T, Failure>(items[i]),
            Err(failure) => exists|i: int|
                0 <= i < count && #[trigger] item(i) == Err::<T, Failure>(failure),
        },
    decreases count,
{
    if count > 0 {
        lemma_collect_items(item, count - 1);
        match collect(item, count - 1) {
            Ok(items) => {
                match item(count - 1) {
                    Ok(last) => {
                        assert(items.push(last).len() == count);
                    },
                    Err(failure) => {
                        assert(item(count - 1) == Err::<T, Failure>(failure));
                    },
                }
            },
            Err(failure) => {
                let i = choose|i: int|
                    0 <= i < count - 1 && #[trigger] item(i) == Err::<T, Failure>(failure);
                assert(0 <= i < count && item(i) == Err::<T, Failure>(failure));
            },
        }
    }
}

/// Once an item fails, every longer collection fails in the same way.
pub proof fn lemma_collect_failure_stays<T>(
    item: spec_fn(int) -> Result<T, Failure>,
    shorter: int,
    longer: int,
)
    requires
        shorter <= longer,
        collect(item, shorter) is Err,
    ensures
        collect(item, longer) == collect(item, shorter),
    decreases longer - shorter,
{
    if shorter < longer {
        lemma_collect_failure_stays(item, shorter, longer - 1);
    }
}

/// Where every result holds, the collection has them all.
pub proof fn lemma_collect_all<T>(item: spec_fn(int) -> Result<T, Failure>, items: Seq<T>)
    requires
        forall|i: int| 0 <= i < items.len() ==> #[trigger] item(i) == Ok::<T, Failure>(items[i]),
    ensures
        collect(item, items.len() as int) == Ok::<Seq<T>, Failure>(items),
    decreases items.len(),
{
    if items.len() == 0 {
        assert(items =~= Seq::empty());
    } else {
        let before = items.drop_last();
        assert forall|i: int| 0 <= i < before.len() implies #[trigger] item(i) == Ok::<T, Failure>(
            before[i],
        ) by {
            assert(before[i] == items[i]);
        }
        lemma_collect_all(item, before);
        assert(item(items.len() - 1) == Ok::<T, Failure>(items.last()));
        assert(before.push(items.last()) =~= items);
    }
}

/// Collections of the same results are the same.
pub proof fn lemma_collect_same<T>(
    a: spec_fn(int) -> Result<T, Failure>,
    b: spec_fn(int) -> Result<T, Failure>,
    count: int,
)
    requires
        forall|i: int| 0 <= i < count ==> #[trigger] a(i) == b(i),
    ensures
        collect(a, count) == collect(b, count),
    decreases count,
{
    if count > 0 {
        lemma_collect_same(a, b, count - 1);
        assert(a(count - 1) == b(count - 1));
    }
}

} // verus!
