use vstd::prelude::*;

verus! {

/// The instruction set of an ELF file, from the `machine` field of its
/// header.
#[derive(Debug, PartialEq, Eq, Clone, Copy, Structural)]
#[allow(non_camel_case_types)]
pub enum ISA {
    X86,
    Intel80860,
    IA64,
    AMDx86_64,
    AArch64,
    RiscV,
}

impl ISA {
    /// Whether `v` is the number of an instruction set that has a name here.
    pub open spec fn known(v: u16) -> bool {
        v == 0x03 || v == 0x07 || v == 0x32 || v == 0x3e || v == 0xb7 || v == 0xf3
    }

    /// The instruction set that the number `v` stands for.
    pub open spec fn of(v: u16) -> ISA
        recommends
            ISA::known(v),
    {
        if v == 0xf3 {
            ISA::RiscV
        } else if v == 0xb7 {
            ISA::AArch64
        } else if v == 0x3e {
            ISA::AMDx86_64
        } else if v == 0x32 {
            ISA::IA64
        } else if v == 0x07 {
            ISA::Intel80860
        } else {
            ISA::X86
        }
    }

    /// The instruction set with the number `value`.
    pub fn from(value: u16) -> (t: ISA)
        requires
            ISA::known(value),
        ensures
            t == ISA::of(value),
    {
        if value == 0xf3 {
            ISA::RiscV
        } else if value == 0xb7 {
            ISA::AArch64
        } else if value == 0x3e {
            ISA::AMDx86_64
        } else if value == 0x32 {
            ISA::IA64
        } else if value == 0x07 {
            ISA::Intel80860
        } else {
            ISA::X86
        }
    }
}

} // verus!
