//! File-open flags and the file-descriptor table.
//!
//! The filesystem itself is an external collaborator; verified here are
//! the flag rules of the open path and the descriptor-slot allocator.

use vstd::prelude::*;

verus! {

/// Open read-only (the absence of the write bits).
pub const O_RDONLY: u64 = 0;

/// Open write-only.
pub const O_WRONLY: u64 = 0x1;

/// Open read-write.
pub const O_RDWR: u64 = 0x2;

/// Create the file if it does not exist.
pub const O_CREAT: u64 = 0x40;

/// Fail if creating and the file exists.
pub const O_EXCL: u64 = 0x80;

/// Truncate on open.
pub const O_TRUNC: u64 = 0x200;

/// Append on each write.
pub const O_APPEND: u64 = 0x400;

/// Close on exec.
pub const O_CLOEXEC: u64 = 0x8_0000;

/// Open a directory.
pub const O_DIRECTORY: u64 = 0x20_0000;

/// A set of open flags.
#[derive(Clone, Copy, Debug, PartialEq, Eq, Structural)]
pub struct OpenFlags(pub u64);

impl OpenFlags {
    /// Whether a descriptor opened with these flags may read: everything
    /// but a write-only descriptor (WRONLY set, RDWR clear). A read
    /// through a write-only descriptor is denied with a permission error.
    pub fn readable(self) -> (r: bool)
        ensures
            r == (self.0 & (O_WRONLY | O_RDWR) != O_WRONLY),
    {
        self.0 & (O_WRONLY | O_RDWR) != O_WRONLY
    }

    /// Whether a descriptor opened with these flags may write: one of
    /// the write bits is set.
    pub fn writable(self) -> (r: bool)
        ensures
            r == (self.0 & (O_WRONLY | O_RDWR) != O_RDONLY),
    {
        self.0 & (O_WRONLY | O_RDWR) != O_RDONLY
    }

    /// Whether every flag of `mask` is set.
    pub fn contains(self, mask: u64) -> (r: bool)
        ensures
            r == (self.0 & mask == mask),
    {
        self.0 & mask == mask
    }
}

/// How the open path reaches the filesystem for a given flag set:
/// `CREAT` creates a file, else `DIRECTORY` opens a directory, else an
/// existing file is opened.
#[derive(Clone, Copy, Debug, PartialEq, Eq, Structural)]
pub enum FileOpenKind {
    CreateFile,
    OpenDir,
    OpenFile,
}

/// The filesystem call the open path makes for a flag set.
pub open spec fn spec_open_kind(flags: OpenFlags) -> FileOpenKind {
    if flags.0 & O_CREAT == O_CREAT {
        FileOpenKind::CreateFile
    } else if flags.0 & O_DIRECTORY == O_DIRECTORY {
        FileOpenKind::OpenDir
    } else {
        FileOpenKind::OpenFile
    }
}

/// Decide which filesystem call the open path makes.
pub fn open_kind(flags: OpenFlags) -> (r: FileOpenKind)
    ensures
        r == spec_open_kind(flags),
{
    if flags.contains(O_CREAT) {
        FileOpenKind::CreateFile
    } else if flags.contains(O_DIRECTORY) {
        FileOpenKind::OpenDir
    } else {
        FileOpenKind::OpenFile
    }
}

/// The position a fresh descriptor starts at: the end of the file when
/// appending, the start otherwise.
pub fn initial_position(flags: OpenFlags, end_of_file: u64) -> (r: u64)
    ensures
        flags.0 & O_APPEND == O_APPEND ==> r == end_of_file,
        flags.0 & O_APPEND != O_APPEND ==> r == 0,
{
    if flags.contains(O_APPEND) {
        end_of_file
    } else {
        0
    }
}

/// Most descriptor slots a process may hold.
pub const MAX_FD: u64 = 101;

/// The descriptor table of one process: slot `i` holds the id of a
/// shared open-file description, or is free. Two tables holding the same
/// id share the description, as a forked child shares its parent's open
/// files. Slots 0 and 1 are preinstalled as standard input and output on
/// the console description.
pub struct FdTable {
    pub slots: Vec<Option<u64>>,
}

/// The shared description id of the console, behind standard input and
/// output.
pub const CONSOLE_DESC: u64 = 0;

impl FdTable {
    /// A fresh table: standard input and output installed, both sharing
    /// the console description.
    pub fn new() -> (r: FdTable)
        ensures
            r.slots@.len() == 2,
            r.slots@[0] == Some(CONSOLE_DESC) && r.slots@[1] == Some(CONSOLE_DESC),
    {
        let mut slots: Vec<Option<u64>> = Vec::new();
        slots.push(Some(CONSOLE_DESC));
        slots.push(Some(CONSOLE_DESC));
        FdTable { slots }
    }

    /// An exact copy of the table: every slot holds the same description
    /// id, so every open file is shared with the copy.
    pub fn duplicate(&self) -> (r: FdTable)
        ensures
            r.slots@ == self.slots@,
    {
        let mut slots: Vec<Option<u64>> = Vec::new();
        let mut i: usize = 0;
        while i < self.slots.len()
            invariant
                i <= self.slots.len(),
                slots@.len() == i,
                forall|j: int| 0 <= j < i ==> slots@[j] == self.slots@[j],
            decreases self.slots.len() - i,
        {
            slots.push(self.slots[i]);
            i = i + 1;
        }
        proof {
            assert(slots@ =~= self.slots@);
        }
        FdTable { slots }
    }

    /// Install a description in a slot.
    pub fn fd_install(&mut self, fd: usize, desc: u64)
        requires
            fd < old(self).slots.len(),
        ensures
            final(self).slots@ == old(self).slots@.update(fd as int, Some(desc)),
    {
        self.slots[fd] = Some(desc);
    }

    /// Allocate a descriptor slot: the first free slot at 2 or above;
    /// when none is free and the table is below its cap, a new slot at
    /// the end; -1 when the table is full.
    pub fn fd_alloc(&mut self) -> (r: i64)
        requires
            2 <= old(self).slots.len() <= MAX_FD,
        ensures
            final(self).slots.len() <= MAX_FD,
            r == -1 || r >= 2,
            r == -1 ==> old(self).slots.len() == MAX_FD && (forall|i: int|
                2 <= i < old(self).slots.len() ==> (#[trigger] old(self).slots[i]) is Some)
                && final(self).slots@ == old(self).slots@,
            r >= 2 ==> r < final(self).slots.len() && final(self).slots[r as int] is None && (
            forall|i: int| 2 <= i < r ==> (#[trigger] old(self).slots[i]) is Some),
            r >= 2 && r < old(self).slots.len() ==> old(self).slots[r as int] is None && final(self).slots@ == old(self).slots@,
            r == old(self).slots.len() ==> final(self).slots@ == old(self).slots@.push(
                None,
            ),
    {
        let len = self.slots.len();
        let mut i: usize = 2;
        while i < len
            invariant
                len == self.slots.len(),
                2 <= i <= len,
                len <= MAX_FD,
                self.slots@ == old(self).slots@,
                forall|j: int| 2 <= j < i ==> (#[trigger] old(self).slots[j]) is Some,
            decreases len - i,
        {
            if self.slots[i].is_none() {
                return i as i64;
            }
            i = i + 1;
        }
        if len == MAX_FD as usize {
            return -1;
        }
        self.slots.push(None);
        len as i64
    }

    /// Free a slot.
    pub fn fd_free(&mut self, fd: usize)
        requires
            fd < old(self).slots.len(),
        ensures
            final(self).slots@ == old(self).slots@.update(fd as int, None),
    {
        self.slots[fd] = None;
    }
}

} // verus!
