//! Protection-flag sets: page table entry flags, `mmap` protection bits and
//! file open flags, written out as explicit bit sets.

use vstd::prelude::*;

verus! {

/// Flags of one page table entry.
#[derive(Clone, Copy, Debug, PartialEq, Eq, Structural)]
pub struct PTEFlags {
    /// The entry holds a live translation.
    pub valid: bool,
    /// The page may be read.
    pub read: bool,
    /// The page may be written.
    pub write: bool,
    /// The page may be executed.
    pub execute: bool,
    /// The page is reachable from user mode.
    pub user: bool,
    /// The page has been accessed.
    pub accessed: bool,
    /// The page has been written to.
    pub dirty: bool,
}

impl PTEFlags {
    /// Whether every flag set in `other` is also set in `self`.
    pub open spec fn spec_contains(self, other: PTEFlags) -> bool {
        &&& (other.valid ==> self.valid)
        &&& (other.read ==> self.read)
        &&& (other.write ==> self.write)
        &&& (other.execute ==> self.execute)
        &&& (other.user ==> self.user)
        &&& (other.accessed ==> self.accessed)
        &&& (other.dirty ==> self.dirty)
    }

    /// The flag set with every flag cleared.
    pub open spec fn spec_empty() -> PTEFlags {
        PTEFlags {
            valid: false,
            read: false,
            write: false,
            execute: false,
            user: false,
            accessed: false,
            dirty: false,
        }
    }

    /// `self` with the valid, accessed and dirty flags set, as a page fault
    /// handler installs a mapping.
    pub open spec fn spec_with_present_bits(self) -> PTEFlags {
        PTEFlags { valid: true, accessed: true, dirty: true, ..self }
    }

    /// The flag set with every flag cleared.
    pub fn empty() -> (r: PTEFlags)
        ensures
            r == PTEFlags::spec_empty(),
    {
        PTEFlags {
            valid: false,
            read: false,
            write: false,
            execute: false,
            user: false,
            accessed: false,
            dirty: false,
        }
    }

    /// Whether every flag set in `other` is also set in `self`.
    pub fn contains(&self, other: &PTEFlags) -> (r: bool)
        ensures
            r == self.spec_contains(*other),
    {
        (!other.valid || self.valid) && (!other.read || self.read) && (!other.write || self.write)
            && (!other.execute || self.execute) && (!other.user || self.user) && (!other.accessed
            || self.accessed) && (!other.dirty || self.dirty)
    }

    /// `self` with the valid, accessed and dirty flags set.
    pub fn with_present_bits(&self) -> (r: PTEFlags)
        ensures
            r == self.spec_with_present_bits(),
    {
        PTEFlags { valid: true, accessed: true, dirty: true, ..*self }
    }
}

/// `mmap` protection bits, as passed to the `mmap` syscall.
#[derive(Clone, Copy, Debug, PartialEq, Eq, Structural)]
pub struct MMAPPROT {
    /// Raw protection bits.
    pub bits: u32,
}

/// The bit of `MMAPPROT` that grants read access.
pub const PROT_READ: u32 = 1 << 0;

/// The bit of `MMAPPROT` that grants write access.
pub const PROT_WRITE: u32 = 1 << 1;

/// The bit of `MMAPPROT` that grants execute access.
pub const PROT_EXEC: u32 = 1 << 2;

impl MMAPPROT {
    /// Whether a given protection bit is set.
    pub open spec fn spec_has(self, bit: u32) -> bool {
        self.bits & bit == bit
    }

    /// Translate protection bits into page table entry flags. The user flag
    /// is always granted, else the mapped pages would be useless to the
    /// requesting process.
    pub fn into_pte_flags(self) -> (r: PTEFlags)
        ensures
            r.user,
            r.read == self.spec_has(PROT_READ),
            r.write == self.spec_has(PROT_WRITE),
            r.execute == self.spec_has(PROT_EXEC),
            !r.valid && !r.accessed && !r.dirty,
    {
        let mut flag = PTEFlags::empty();
        flag.user = true;
        if self.bits & PROT_READ == PROT_READ {
            flag.read = true;
        }
        if self.bits & PROT_WRITE == PROT_WRITE {
            flag.write = true;
        }
        if self.bits & PROT_EXEC == PROT_EXEC {
            flag.execute = true;
        }
        flag
    }
}

/// Permission and option bits a file is opened with.
#[derive(Clone, Copy, Debug, PartialEq, Eq, Structural)]
pub struct OpenFlags {
    /// Raw open bits.
    pub bits: u32,
}

/// Open for writing only.
pub const OPEN_WRONLY: u32 = 1 << 0;

/// Open for reading and writing.
pub const OPEN_RDWR: u32 = 1 << 1;

/// Create the file if it does not exist.
pub const OPEN_CREATE: u32 = 1 << 6;

/// Fail if the file already exists.
pub const OPEN_EXCL: u32 = 1 << 9;

/// The path names a directory.
pub const OPEN_DIR: u32 = 1 << 21;

impl OpenFlags {
    /// The read/write permission the flags grant: empty flags mean read-only,
    /// the write-only bit means write-only, anything else means both.
    pub fn read_write(&self) -> (r: (bool, bool))
        ensures
            self.bits == 0 ==> r == (true, false),
            self.bits != 0 && self.bits & OPEN_WRONLY == OPEN_WRONLY ==> r == (false, true),
            self.bits != 0 && self.bits & OPEN_WRONLY != OPEN_WRONLY ==> r == (true, true),
    {
        if self.bits == 0 {
            (true, false)
        } else if self.bits & OPEN_WRONLY == OPEN_WRONLY {
            (false, true)
        } else {
            (true, true)
        }
    }
}

} // verus!
