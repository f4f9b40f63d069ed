use vstd::prelude::*;

verus! {

/// Why a loader configuration file was rejected.
#[derive(Clone, Copy, Debug, PartialEq, Eq, Structural)]
pub enum ConfigError {
    TooLarge,
    NulByte,
    NonAscii,
    MissingRootGuid,
    MissingTrailingNewline,
    InvalidFormat,
    Whitespace,
    UnknownKey,
    DuplicateRootGuid,
    InvalidRootGuid,
}

/// Why a kernel image was rejected.
#[derive(Clone, Copy, Debug, PartialEq, Eq, Structural)]
pub enum ElfLoadError {
    Truncated,
    InvalidMagic,
    UnsupportedClass,
    UnsupportedEndianness,
    UnsupportedVersion,
    UnsupportedAbi,
    UnsupportedType,
    UnsupportedMachine,
    InvalidHeaderSize,
    InvalidProgramHeaderSize,
    IntegerOverflow,
    ProgramHeaderTableOutOfBounds,
    EntryOutsideExecutableSegment,
    InvalidSegmentFlags,
    WritableExecutable,
    FileSizeExceedsMemorySize,
    InvalidSegmentAlignment,
    OffsetNotPageCongruent,
    NotHighHalf,
    SegmentOutOfBounds,
    OverlappingSegments,
    InvalidDynamicTable,
    DynamicRelocations,
}

} // verus!
