//! Typed view over the fixed device-tree header.

use vstd::prelude::*;
use crate::error::Error;
use crate::model::be32;
use crate::util::read_be32;
use crate::blob::MAX_COMPAT_VERSION;
use crate::blob::MIN_COMPAT_VERSION;

verus! {

/// The size of the version-1 header, the prefix every version shares.
pub const HEADER_V1_SIZE: usize = 28;

/// The magic number that opens every flattened device tree.
pub const MAGIC: u32 = 0xd00dfeed;

/// A borrowed view over the header bytes at the start of a blob.
#[derive(Clone, Copy)]
pub struct Header<'blob> {
    pub raw: &'blob [u8],
}

impl<'blob> Header<'blob> {
    /// Wraps the given bytes; the fields are read lazily.
    pub fn new(raw: &'blob [u8]) -> (h: Header<'blob>)
        ensures
            h.raw == raw,
    {
        Header { raw }
    }

    /// The magic field, at offset 0.
    pub fn magic(&self) -> (m: Magic)
        requires
            self.raw@.len() >= 28,
        ensures
            m.val == be32(self.raw@, 0),
    {
        Magic { val: read_be32(self.raw, 0) }
    }

    /// The total size in bytes of the blob, at offset 4.
    pub fn totalsize(&self) -> (r: u32)
        requires
            self.raw@.len() >= 28,
        ensures
            r == be32(self.raw@, 4),
    {
        read_be32(self.raw, 4)
    }

    /// The offset of the structure block, at offset 8.
    pub fn off_dt_struct(&self) -> (r: u32)
        requires
            self.raw@.len() >= 28,
        ensures
            r == be32(self.raw@, 8),
    {
        read_be32(self.raw, 8)
    }

    /// The offset of the strings block, at offset 12.
    pub fn off_dt_strings(&self) -> (r: u32)
        requires
            self.raw@.len() >= 28,
        ensures
            r == be32(self.raw@, 12),
    {
        read_be32(self.raw, 12)
    }

    /// The offset of the memory reservation block, at offset 16.
    pub fn off_mem_rsvmap(&self) -> (r: u32)
        requires
            self.raw@.len() >= 28,
        ensures
            r == be32(self.raw@, 16),
    {
        read_be32(self.raw, 16)
    }

    /// The version field, at offset 20.
    pub fn version(&self) -> (v: Version)
        requires
            self.raw@.len() >= 28,
        ensures
            v.val == be32(self.raw@, 20),
    {
        Version { val: read_be32(self.raw, 20) }
    }

    /// The last compatible version, at offset 24.
    pub fn last_comp_version(&self) -> (r: u32)
        requires
            self.raw@.len() >= 28,
        ensures
            r == be32(self.raw@, 24),
    {
        read_be32(self.raw, 24)
    }

    /// The physical id of the booting cpu, at offset 28; present only
    /// from version 2 on.
    pub fn boot_cpuid_phys(&self) -> (r: Option<u32>)
        requires
            self.raw@.len() >= 28,
            be32(self.raw@, 20) >= 2 ==> self.raw@.len() >= 32,
        ensures
            r == if be32(self.raw@, 20) >= 2 {
                Some(be32(self.raw@, 28))
            } else {
                None::<u32>
            },
    {
        if self.version().val >= 2 {
            Some(read_be32(self.raw, 28))
        } else {
            None
        }
    }

    /// The size of the strings block, at offset 32; present only from
    /// version 3 on.
    pub fn size_dt_strings(&self) -> (r: Option<u32>)
        requires
            self.raw@.len() >= 28,
            be32(self.raw@, 20) >= 3 ==> self.raw@.len() >= 36,
        ensures
            r == if be32(self.raw@, 20) >= 3 {
                Some(be32(self.raw@, 32))
            } else {
                None::<u32>
            },
    {
        if self.version().val >= 3 {
            Some(read_be32(self.raw, 32))
        } else {
            None
        }
    }

    /// The size of the structure block, at offset 36; present only from
    /// version 17 on.
    pub fn size_dt_struct(&self) -> (r: Option<u32>)
        requires
            self.raw@.len() >= 28,
            be32(self.raw@, 20) >= 17 ==> self.raw@.len() >= 40,
        ensures
            r == if be32(self.raw@, 20) >= 17 {
                Some(be32(self.raw@, 36))
            } else {
                None::<u32>
            },
    {
        if self.version().val >= 17 {
            Some(read_be32(self.raw, 36))
        } else {
            None
        }
    }

    /// Sanity checks the header: the magic number must be right and the
    /// last compatible version must fall in the supported window.
    pub fn validate(self) -> (r: Result<Header<'blob>, Error>)
        requires
            self.raw@.len() >= 28,
        ensures
            match r {
                Ok(h) => h == self && be32(self.raw@, 0) == MAGIC && MIN_COMPAT_VERSION <= be32(
                    self.raw@,
                    24,
                ) <= MAX_COMPAT_VERSION,
                Err(e) => if be32(self.raw@, 0) != MAGIC {
                    e == Error::BadMagic(be32(self.raw@, 0))
                } else {
                    !(MIN_COMPAT_VERSION <= be32(self.raw@, 24) <= MAX_COMPAT_VERSION) && e
                        == Error::BadVersion(be32(self.raw@, 24))
                },
            },
    {
        match self.magic().valid() {
            Ok(_) => {},
            Err(e) => {
                return Err(e);
            },
        }
        match (Version { val: self.last_comp_version() }).compatible() {
            Ok(_) => {},
            Err(e) => {
                return Err(e);
            },
        }
        Ok(self)
    }
}

/// The magic field of a header.
#[derive(Clone, Copy)]
pub struct Magic {
    pub val: u32,
}

impl Magic {
    /// Accepts exactly the device-tree magic number.
    pub fn valid(&self) -> (r: Result<(), Error>)
        ensures
            match r {
                Ok(_) => self.val == MAGIC,
                Err(e) => self.val != MAGIC && e == Error::BadMagic(self.val),
            },
    {
        if self.val == MAGIC {
            Ok(())
        } else {
            Err(Error::BadMagic(self.val))
        }
    }
}

/// A version field of a header.
#[derive(Clone, Copy)]
pub struct Version {
    pub val: u32,
}

impl Version {
    /// Accepts exactly the versions this library can read.
    pub fn compatible(&self) -> (r: Result<(), Error>)
        ensures
            match r {
                Ok(_) => MIN_COMPAT_VERSION <= self.val <= MAX_COMPAT_VERSION,
                Err(e) => !(MIN_COMPAT_VERSION <= self.val <= MAX_COMPAT_VERSION) && e
                    == Error::BadVersion(self.val),
            },
    {
        if MIN_COMPAT_VERSION <= self.val && self.val <= MAX_COMPAT_VERSION {
            Ok(())
        } else {
            Err(Error::BadVersion(self.val))
        }
    }
}

} // verus!
