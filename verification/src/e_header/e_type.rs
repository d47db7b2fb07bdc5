use vstd::prelude::*;

verus! {

/// The kind of an ELF file, from the `type` field of its header.
#[derive(Debug, PartialEq, Eq, Clone, Copy, Structural)]
pub enum EType {
    NONE,
    REL,
    EXEC,
    DYN,
    CORE,
}

impl EType {
    /// Whether `v` is the number of a kind of file.
    pub open spec fn known(v: u16) -> bool {
        v <= 4
    }

    /// The kind of file that the number `v` stands for.
    pub open spec fn of(v: u16) -> EType
        recommends
            EType::known(v),
    {
        if v == 0 {
            EType::NONE
        } else if v == 1 {
            EType::REL
        } else if v == 2 {
            EType::EXEC
        } else if v == 3 {
            EType::DYN
        } else {
            EType::CORE
        }
    }

    /// The kind of file with the number `value`.
    pub fn from(value: u16) -> (t: EType)
        requires
            EType::known(value),
        ensures
            t == EType::of(value),
    {
        if value == 0 {
            EType::NONE
        } else if value == 1 {
            EType::REL
        } else if value == 2 {
            EType::EXEC
        } else if value == 3 {
            EType::DYN
        } else {
            EType::CORE
        }
    }
}

} // verus!
