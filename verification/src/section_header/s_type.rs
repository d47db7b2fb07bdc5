use vstd::prelude::*;

verus! {

/// The basic section types, by their short names.
#[derive(Debug, PartialEq, Eq, Clone, Copy, Structural)]
pub enum SType {
    NULL,
    PROG,
    SYMTAB,
    STRTAB,
    RELA,
    HASH,
    DYNAMIC,
    NOTE,
    NOBITS,
    REL,
    SHLIB,
    DNYSYM,
}

impl SType {
    /// Whether `v` is the number of a basic section type.
    pub open spec fn known(v: u32) -> bool {
        v <= 0x0b
    }

    /// The basic section type that the number `v` stands for.
    pub open spec fn of(v: u32) -> SType
        recommends
            SType::known(v),
    {
        if v == 0x00 {
            SType::NULL
        } else if v == 0x01 {
            SType::PROG
        } else if v == 0x02 {
            SType::SYMTAB
        } else if v == 0x03 {
            SType::STRTAB
        } else if v == 0x04 {
            SType::RELA
        } else if v == 0x05 {
            SType::HASH
        } else if v == 0x06 {
            SType::DYNAMIC
        } else if v == 0x07 {
            SType::NOTE
        } else if v == 0x08 {
            SType::NOBITS
        } else if v == 0x09 {
            SType::REL
        } else if v == 0x0a {
            SType::SHLIB
        } else {
            SType::DNYSYM
        }
    }

    /// The basic section type with the number `value`.
    pub fn from(value: u32) -> (t: SType)
        requires
            SType::known(value),
        ensures
            t == SType::of(value),
    {
        if value == 0x00 {
            SType::NULL
        } else if value == 0x01 {
            SType::PROG
        } else if value == 0x02 {
            SType::SYMTAB
        } else if value == 0x03 {
            SType::STRTAB
        } else if value == 0x04 {
            SType::RELA
        } else if value == 0x05 {
            SType::HASH
        } else if value == 0x06 {
            SType::DYNAMIC
        } else if value == 0x07 {
            SType::NOTE
        } else if value == 0x08 {
            SType::NOBITS
        } else if value == 0x09 {
            SType::REL
        } else if value == 0x0a {
            SType::SHLIB
        } else {
            SType::DNYSYM
        }
    }
}

} // verus!
