use vstd::prelude::*;

verus! {

/// The kind of an archive entry, read from the header's type byte.
#[derive(Debug, Clone, Copy, PartialEq, Eq, Structural)]
pub enum TypeFlag {
    NormalFile,
    HardLink,
    SymbolicLink,
    CharacterSpecial,
    BlockSpecial,
    Directory,
    FIFO,
    ContiguousFile,
    GlobalExtendedHeaderWithMetadata,
    ExtendedHeaderWithMetadataForNext,
    VendorSpecific,
    Invalid,
}

/// The kind that a type character stands for. Every character has exactly one.
pub open spec fn type_flag_of(c: char) -> TypeFlag {
    if c == '0' || c == '\0' {
        TypeFlag::NormalFile
    } else if c == '1' {
        TypeFlag::HardLink
    } else if c == '2' {
        TypeFlag::SymbolicLink
    } else if c == '3' {
        TypeFlag::CharacterSpecial
    } else if c == '4' {
        TypeFlag::BlockSpecial
    } else if c == '5' {
        TypeFlag::Directory
    } else if c == '6' {
        TypeFlag::FIFO
    } else if c == '7' {
        TypeFlag::ContiguousFile
    } else if c == 'g' {
        TypeFlag::GlobalExtendedHeaderWithMetadata
    } else if c == 'x' {
        TypeFlag::ExtendedHeaderWithMetadataForNext
    } else if 'A' <= c <= 'Z' {
        TypeFlag::VendorSpecific
    } else {
        TypeFlag::Invalid
    }
}

/// Classifies a type character; never fails.
pub fn char_to_type_flag(c: char) -> (r: TypeFlag)
    ensures
        r == type_flag_of(c),
{
    if c == '0' || c == '\0' {
        TypeFlag::NormalFile
    } else if c == '1' {
        TypeFlag::HardLink
    } else if c == '2' {
        TypeFlag::SymbolicLink
    } else if c == '3' {
        TypeFlag::CharacterSpecial
    } else if c == '4' {
        TypeFlag::BlockSpecial
    } else if c == '5' {
        TypeFlag::Directory
    } else if c == '6' {
        TypeFlag::FIFO
    } else if c == '7' {
        TypeFlag::ContiguousFile
    } else if c == 'g' {
        TypeFlag::GlobalExtendedHeaderWithMetadata
    } else if c == 'x' {
        TypeFlag::ExtendedHeaderWithMetadataForNext
    } else if 'A' <= c && c <= 'Z' {
        TypeFlag::VendorSpecific
    } else {
        TypeFlag::Invalid
    }
}

} // verus!
