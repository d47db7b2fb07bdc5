use crate::error::LinkError;
use vstd::prelude::*;

verus! {

/// The width of the addresses of the file.
#[derive(Debug, PartialEq, Eq, Clone, Copy, Structural)]
pub enum Class {
    ELF32,
    ELF64,
}

/// The byte order of the file.
#[derive(Debug, PartialEq, Eq, Clone, Copy, Structural)]
pub enum Endian {
    BigEndian,
    LittleEndian,
}

/// The version of the file format.
#[derive(Debug, PartialEq, Eq, Clone, Copy, Structural)]
pub enum Version {
    Version1,
}

/// The sixteen identification bytes at the start of an ELF file.
pub struct Ident {
    pub ident: [u8; 16],
}

/// The operating system or ABI that the file is for.
#[derive(Debug, PartialEq, Eq, Clone, Copy, Structural)]
pub enum OS {
    SystemV,
    HPUX,
    NetBSD,
    Linux,
    GNUHurd,
    Solaris,
    AIX,
    IRIX,
    FreeBSD,
    Tru64,
    NovellModesto,
    OpenBSD,
    OpenVMS,
}

impl OS {
    /// Whether `v` is the number of an operating system that has a name
    /// here.
    pub open spec fn known(v: u8) -> bool {
        v <= 0x0d && v != 0x05
    }

    /// The operating system that the number `v` stands for.
    pub open spec fn of(v: u8) -> OS
        recommends
            OS::known(v),
    {
        if v == 0x00 {
            OS::SystemV
        } else if v == 0x01 {
            OS::HPUX
        } else if v == 0x02 {
            OS::NetBSD
        } else if v == 0x03 {
            OS::Linux
        } else if v == 0x04 {
            OS::GNUHurd
        } else if v == 0x06 {
            OS::Solaris
        } else if v == 0x07 {
            OS::AIX
        } else if v == 0x08 {
            OS::IRIX
        } else if v == 0x09 {
            OS::FreeBSD
        } else if v == 0x0a {
            OS::Tru64
        } else if v == 0x0b {
            OS::NovellModesto
        } else if v == 0x0c {
            OS::OpenBSD
        } else {
            OS::OpenVMS
        }
    }

    /// The operating system with the number `value`.
    pub fn from(value: u8) -> (t: OS)
        requires
            OS::known(value),
        ensures
            t == OS::of(value),
    {
        if value == 0x00 {
            OS::SystemV
        } else if value == 0x01 {
            OS::HPUX
        } else if value == 0x02 {
            OS::NetBSD
        } else if value == 0x03 {
            OS::Linux
        } else if value == 0x04 {
            OS::GNUHurd
        } else if value == 0x06 {
            OS::Solaris
        } else if value == 0x07 {
            OS::AIX
        } else if value == 0x08 {
            OS::IRIX
        } else if value == 0x09 {
            OS::FreeBSD
        } else if value == 0x0a {
            OS::Tru64
        } else if value == 0x0b {
            OS::NovellModesto
        } else if value == 0x0c {
            OS::OpenBSD
        } else {
            OS::OpenVMS
        }
    }
}

impl Ident {
    /// Whether the bytes are those of a file that can be linked: the ELF
    /// magic, class ELF64, little-endian.
    pub open spec fn supported(&self) -> bool {
        &&& self.ident@[0] == 0x7f
        &&& self.ident@[1] == 0x45
        &&& self.ident@[2] == 0x4c
        &&& self.ident@[3] == 0x46
        &&& self.ident@[4] == 2
        &&& self.ident@[5] == 1
    }

    /// The identification bytes `data`.
    pub fn new(data: [u8; 16]) -> (i: Self)
        ensures
            i.ident == data,
    {
        Self { ident: data }
    }

    /// Accepts the file if it begins with the ELF magic and is of class
    /// ELF64 and little-endian, and refuses it otherwise.
    pub fn check(&self) -> (r: Result<(), LinkError>)
        ensures
            self.supported() ==> r is Ok,
            !self.supported() ==> r == Err::<(), LinkError>(LinkError::UnsupportedElf),
    {
        if self.ident[0] == 0x7f && self.ident[1] == 0x45 && self.ident[2] == 0x4c && self.ident[3]
            == 0x46 && self.ident[4] == 2 && self.ident[5] == 1 {
            Ok(())
        } else {
            Err(LinkError::UnsupportedElf)
        }
    }

    /// The class that the fifth byte names.
    pub fn class(&self) -> (c: Class)
        requires
            self.ident@[4] == 1 || self.ident@[4] == 2,
        ensures
            c == if self.ident@[4] == 1 {
                Class::ELF32
            } else {
                Class::ELF64
            },
    {
        if self.ident[4] == 1 {
            Class::ELF32
        } else {
            Class::ELF64
        }
    }

    /// The byte order that the sixth byte names.
    pub fn endian(&self) -> (e: Endian)
        requires
            self.ident@[5] == 1 || self.ident@[5] == 2,
        ensures
            e == if self.ident@[5] == 1 {
                Endian::LittleEndian
            } else {
                Endian::BigEndian
            },
    {
        if self.ident[5] == 1 {
            Endian::LittleEndian
        } else {
            Endian::BigEndian
        }
    }

    /// The format version that the seventh byte names.
    pub fn version(&self) -> (v: Version)
        requires
            self.ident@[6] == 1,
        ensures
            v == Version::Version1,
    {
        Version::Version1
    }

    /// The operating system that the eighth byte names.
    pub fn os(&self) -> (o: OS)
        requires
            OS::known(self.ident@[7]),
        ensures
            o == OS::of(self.ident@[7]),
    {
        OS::from(self.ident[7])
    }
}

} // verus!
