use vstd::prelude::*;

use crate::error::Error;
use crate::fs::memfs::{fill_front, fs_read, fs_write, write_fits, MemFS};
use crate::fs::vfs::{FileType, InodeId, InodeView, Metadata};

verus! {

/// Bit of `OpenFlags`: open for writing only.
pub const O_WRONLY: u32 = 1u32;

/// Bit of `OpenFlags`: open for reading and writing.
pub const O_RDWR: u32 = 2u32;

/// Bit of `OpenFlags`: create the file when it does not exist.
pub const O_CREATE: u32 = 64u32;

/// Bit of `OpenFlags`: cut the file to length zero once it is open.
pub const O_TRUNCATE: u32 = 512u32;

/// Bit of `OpenFlags`: every write goes to the end of the file.
pub const O_APPEND: u32 = 1024u32;

/// All the bits that `OpenFlags` knows.
pub const O_ALL: u32 = 1603u32;

/// Flags of an `open` call, as a set of bits.
#[derive(Clone, Copy, Debug, PartialEq, Eq, Structural)]
pub struct OpenFlags {
    pub bits: u32,
}

impl OpenFlags {
    /// The bits of the set.
    pub open spec fn spec_bits(self) -> u32 {
        self.bits
    }

    /// Whether `bit` is set.
    pub open spec fn has(self, bit: u32) -> bool {
        self.bits & bit == bit
    }

    /// Open for writing only.
    pub fn wronly() -> (r: Self)
        ensures
            r.spec_bits() == O_WRONLY,
    {
        OpenFlags { bits: O_WRONLY }
    }

    /// Open for reading and writing.
    pub fn rdwr() -> (r: Self)
        ensures
            r.spec_bits() == O_RDWR,
    {
        OpenFlags { bits: O_RDWR }
    }

    /// Create the file when it does not exist.
    pub fn create() -> (r: Self)
        ensures
            r.spec_bits() == O_CREATE,
    {
        OpenFlags { bits: O_CREATE }
    }

    /// Cut the file to length zero once it is open.
    pub fn truncate() -> (r: Self)
        ensures
            r.spec_bits() == O_TRUNCATE,
    {
        OpenFlags { bits: O_TRUNCATE }
    }

    /// Every write goes to the end of the file.
    pub fn append() -> (r: Self)
        ensures
            r.spec_bits() == O_APPEND,
    {
        OpenFlags { bits: O_APPEND }
    }

    /// The set of no flags.
    pub fn empty() -> (r: Self)
        ensures
            r.spec_bits() == 0,
    {
        OpenFlags { bits: 0 }
    }

    /// The bits of the set.
    pub fn bits(&self) -> (r: u32)
        ensures
            r == self.spec_bits(),
    {
        self.bits
    }

    /// The set made of the known flags among `bits`; unknown bits are dropped.
    pub fn from_bits_truncate(bits: u32) -> (r: Self)
        ensures
            r.spec_bits() == bits & O_ALL,
    {
        OpenFlags { bits: bits & O_ALL }
    }

    /// Whether every flag of `other` is set in `self`.
    pub fn contains(&self, other: OpenFlags) -> (r: bool)
        ensures
            r == self.has(other.spec_bits()),
    {
        self.bits & other.bits == other.bits
    }

    /// The flags set in either operand.
    pub fn union(self, other: OpenFlags) -> (r: Self)
        ensures
            r.spec_bits() == self.spec_bits() | other.spec_bits(),
    {
        OpenFlags { bits: self.bits | other.bits }
    }
}

impl core::ops::BitOr for OpenFlags {
    type Output = OpenFlags;

    fn bitor(self, rhs: OpenFlags) -> (r: OpenFlags) {
        OpenFlags { bits: self.bits | rhs.bits }
    }
}

impl vstd::std_specs::ops::BitOrSpecImpl for OpenFlags {
    open spec fn obeys_bitor_spec() -> bool {
        true
    }

    open spec fn bitor_req(self, rhs: OpenFlags) -> bool {
        true
    }

    open spec fn bitor_spec(self, rhs: OpenFlags) -> OpenFlags {
        OpenFlags { bits: self.bits | rhs.bits }
    }
}

/// The access that an open file handle grants.
#[derive(Clone, Copy, Debug)]
pub struct OpenOptions {
    pub read: bool,
    pub write: bool,
    pub append: bool,
}

impl OpenOptions {
    pub fn read_only() -> (r: Self)
        ensures
            r.read && !r.write && !r.append,
    {
        Self { read: true, write: false, append: false }
    }

    pub fn write_only() -> (r: Self)
        ensures
            !r.read && r.write && !r.append,
    {
        Self { read: false, write: true, append: false }
    }

    pub fn read_write() -> (r: Self)
        ensures
            r.read && r.write && !r.append,
    {
        Self { read: true, write: true, append: false }
    }

    /// The access that `flags` asks for: reading unless the flags ask for
    /// writing only, writing when they ask for it, appending when `APPEND` is set.
    pub fn from_flags(flags: OpenFlags) -> (r: Self)
        ensures
            r == options_of_flags(flags),
    {
        let read = !flags.contains(OpenFlags::wronly()) || flags.contains(OpenFlags::rdwr());
        let write = flags.contains(OpenFlags::wronly()) || flags.contains(OpenFlags::rdwr());
        Self { read, write, append: flags.contains(OpenFlags::append()) }
    }
}

/// The options that `from_flags` derives from a set of flags.
pub open spec fn options_of_flags(flags: OpenFlags) -> OpenOptions {
    OpenOptions {
        read: !flags.has(O_WRONLY) || flags.has(O_RDWR),
        write: flags.has(O_WRONLY) || flags.has(O_RDWR),
        append: flags.has(O_APPEND),
    }
}

/// Every combination of flags yields a handle that can read or write.
pub proof fn lemma_options_of_flags_grant_access(flags: OpenFlags)
    ensures
        options_of_flags(flags).read || options_of_flags(flags).write,
{
}

// ---------------------------------------------------------------------------
// Open file handles.
// ---------------------------------------------------------------------------

/// The state of an open file handle: the inode it refers to, its own offset,
/// and the access it grants.
pub struct HandleView {
    pub inode: InodeId,
    pub offset: usize,
    pub options: OpenOptions,
}

/// The position at which a write through `h` starts: the end of the file for an
/// appending handle, the handle's offset otherwise.
pub open spec fn write_pos(fs: Seq<InodeView>, h: HandleView) -> int {
    if h.options.append {
        fs[h.inode as int].size() as int
    } else {
        h.offset as int
    }
}

/// A write of `n` bytes through `h` fits in memory.
pub open spec fn handle_write_fits(fs: Seq<InodeView>, h: HandleView, n: int) -> bool {
    h.options.write ==> write_fits(fs, h.inode, write_pos(fs, h), n)
}

/// A read of at most `n` bytes through `h`: the handle afterwards and the bytes read.
pub open spec fn handle_read(fs: Seq<InodeView>, h: HandleView, n: int) -> (HandleView, Result<
    Seq<u8>,
    Error,
>) {
    if !h.options.read {
        (h, Err(Error::Permission))
    } else {
        match fs_read(fs, h.inode, h.offset as int, n) {
            Ok(got) => (HandleView { offset: (h.offset + got.len()) as usize, ..h }, Ok(got)),
            Err(e) => (h, Err(e)),
        }
    }
}

/// A write of `buf` through `h`: the inode table afterwards, the handle
/// afterwards, and the result.
pub open spec fn handle_write(fs: Seq<InodeView>, h: HandleView, buf: Seq<u8>) -> (
    Seq<InodeView>,
    HandleView,
    Result<usize, Error>,
) {
    if !h.options.write {
        (fs, h, Err(Error::Permission))
    } else {
        let pos = write_pos(fs, h);
        match fs_write(fs, h.inode, pos, buf) {
            (fs2, Ok(n)) => (fs2, HandleView { offset: (pos + n) as usize, ..h }, Ok(n)),
            (fs2, Err(e)) => (fs2, h, Err(e)),
        }
    }
}

/// An open file: a reference to an inode with an offset of its own and the
/// access it was opened with. Two handles on the same inode share its contents
/// but not their offsets.
pub struct FileHandle {
    inode: InodeId,
    offset: usize,
    options: OpenOptions,
}

impl View for FileHandle {
    type V = HandleView;

    closed spec fn view(&self) -> HandleView {
        HandleView { inode: self.inode, offset: self.offset, options: self.options }
    }
}

impl FileHandle {
    /// A handle on `inode` at offset 0.
    pub fn new(inode: InodeId, options: OpenOptions) -> (r: Self)
        ensures
            r@ == (HandleView { inode, offset: 0, options }),
    {
        Self { inode, offset: 0, options }
    }

    /// The inode the handle refers to.
    pub fn inode(&self) -> (r: InodeId)
        ensures
            r == self@.inode,
    {
        self.inode
    }

    /// Reads at the handle's offset and moves the offset past what was read.
    pub fn read(&mut self, fs: &MemFS, buf: &mut [u8]) -> (r: Result<usize, Error>)
        requires
            fs.well_formed(),
            old(self)@.inode < fs@.len(),
        ensures
            final(self)@ == handle_read(fs@, old(self)@, old(buf)@.len() as int).0,
            match handle_read(fs@, old(self)@, old(buf)@.len() as int).1 {
                Ok(got) => r == Ok::<usize, Error>(got.len() as usize) && final(buf)@ == fill_front(
                    old(buf)@,
                    got,
                ),
                Err(e) => r == Err::<usize, Error>(e) && final(buf)@ == old(buf)@,
            },
    {
        if !self.options.read {
            return Err(Error::Permission);
        }
        proof {
            fs.lemma_valid();
            assert(fs@[self.inode as int] is File ==> fs@[self.inode as int]->File_0.len() <= usize::MAX);
        }
        match fs.read_at(self.inode, self.offset, buf) {
            Ok(n) => {
                self.offset = self.offset + n;
                Ok(n)
            },
            Err(e) => Err(e),
        }
    }

    /// Writes at the handle's offset, or at the end of the file for an
    /// appending handle, and moves the offset past what was written.
    pub fn write(&mut self, fs: &mut MemFS, buf: &[u8]) -> (r: Result<usize, Error>)
        requires
            old(fs).well_formed(),
            old(self)@.inode < old(fs)@.len(),
            handle_write_fits(old(fs)@, old(self)@, buf@.len() as int),
        ensures
            final(fs).well_formed(),
            (final(fs)@, final(self)@, r) == handle_write(old(fs)@, old(self)@, buf@),
    {
        if !self.options.write {
            return Err(Error::Permission);
        }
        let pos = if self.options.append {
            fs.len(self.inode)
        } else {
            self.offset
        };
        match fs.write_at(self.inode, pos, buf) {
            Ok(n) => {
                self.offset = pos + n;
                Ok(n)
            },
            Err(e) => Err(e),
        }
    }

    /// Reads at `offset` without moving the handle's offset.
    pub fn read_at(&self, fs: &MemFS, offset: usize, buf: &mut [u8]) -> (r: Result<usize, Error>)
        requires
            fs.well_formed(),
            self@.inode < fs@.len(),
        ensures
            !self@.options.read ==> r == Err::<usize, Error>(Error::Permission) && final(buf)@ == old(
                buf,
            )@,
            self@.options.read ==> match fs_read(fs@, self@.inode, offset as int, old(buf)@.len() as int) {
                Ok(got) => r == Ok::<usize, Error>(got.len() as usize) && final(buf)@ == fill_front(
                    old(buf)@,
                    got,
                ),
                Err(e) => r == Err::<usize, Error>(e) && final(buf)@ == old(buf)@,
            },
    {
        if !self.options.read {
            return Err(Error::Permission);
        }
        fs.read_at(self.inode, offset, buf)
    }

    /// Writes at `offset` without moving the handle's offset.
    pub fn write_at(&self, fs: &mut MemFS, offset: usize, buf: &[u8]) -> (r: Result<usize, Error>)
        requires
            old(fs).well_formed(),
            self@.inode < old(fs)@.len(),
            self@.options.write ==> write_fits(old(fs)@, self@.inode, offset as int, buf@.len() as int),
        ensures
            final(fs).well_formed(),
            !self@.options.write ==> r == Err::<usize, Error>(Error::Permission) && final(fs)@ == old(
                fs,
            )@,
            self@.options.write ==> (final(fs)@, r) == fs_write(old(fs)@, self@.inode, offset as int, buf@),
    {
        if !self.options.write {
            return Err(Error::Permission);
        }
        fs.write_at(self.inode, offset, buf)
    }

    /// Whether a write of `n` bytes through the handle fits in memory.
    pub fn write_fits(&self, fs: &MemFS, n: usize) -> (b: bool)
        requires
            fs.well_formed(),
            self@.inode < fs@.len(),
        ensures
            b == handle_write_fits(fs@, self@, n as int),
    {
        if !self.options.write {
            return true;
        }
        match fs.file_type(self.inode) {
            FileType::Dir => true,
            FileType::File => {
                let pos = if self.options.append {
                    fs.len(self.inode)
                } else {
                    self.offset
                };
                pos <= usize::MAX - n
            },
        }
    }

    /// The metadata of the inode the handle refers to.
    pub fn metadata(&self, fs: &MemFS) -> (r: Result<Metadata, Error>)
        requires
            fs.well_formed(),
            self@.inode < fs@.len(),
        ensures
            r == Ok::<Metadata, Error>(fs@[self@.inode as int].metadata()),
    {
        Ok(fs.metadata(self.inode))
    }

    /// Moves the handle's offset to `offset`.
    pub fn seek_set(&mut self, offset: usize)
        ensures
            final(self)@ == (HandleView { offset, ..old(self)@ }),
    {
        self.offset = offset;
    }

    /// The handle's offset.
    pub fn offset(&self) -> (r: usize)
        ensures
            r == self@.offset,
    {
        self.offset
    }
}

/// Reading, writing and describing an open file.
pub trait File: Sized {
    /// The state of the open file.
    spec fn file_view(&self) -> HandleView;

    fn read(&mut self, fs: &MemFS, buf: &mut [u8]) -> (r: Result<usize, Error>)
        requires
            fs.well_formed(),
            old(self).file_view().inode < fs@.len(),
        ensures
            final(self).file_view() == handle_read(fs@, old(self).file_view(), old(buf)@.len() as int).0,
            match handle_read(fs@, old(self).file_view(), old(buf)@.len() as int).1 {
                Ok(got) => r == Ok::<usize, Error>(got.len() as usize) && final(buf)@ == fill_front(
                    old(buf)@,
                    got,
                ),
                Err(e) => r == Err::<usize, Error>(e) && final(buf)@ == old(buf)@,
            },
    ;

    fn write(&mut self, fs: &mut MemFS, buf: &[u8]) -> (r: Result<usize, Error>)
        requires
            old(fs).well_formed(),
            old(self).file_view().inode < old(fs)@.len(),
            handle_write_fits(old(fs)@, old(self).file_view(), buf@.len() as int),
        ensures
            final(fs).well_formed(),
            (final(fs)@, final(self).file_view(), r) == handle_write(old(fs)@, old(self).file_view(), buf@),
    ;

    fn metadata(&self, fs: &MemFS) -> (r: Result<Metadata, Error>)
        requires
            fs.well_formed(),
            self.file_view().inode < fs@.len(),
        ensures
            r == Ok::<Metadata, Error>(fs@[self.file_view().inode as int].metadata()),
    ;
}

impl File for FileHandle {
    open spec fn file_view(&self) -> HandleView {
        self@
    }

    fn read(&mut self, fs: &MemFS, buf: &mut [u8]) -> (r: Result<usize, Error>) {
        FileHandle::read(self, fs, buf)
    }

    fn write(&mut self, fs: &mut MemFS, buf: &[u8]) -> (r: Result<usize, Error>) {
        FileHandle::write(self, fs, buf)
    }

    fn metadata(&self, fs: &MemFS) -> (r: Result<Metadata, Error>) {
        FileHandle::metadata(self, fs)
    }
}

/// What a file descriptor refers to.
pub enum FileLike {
    File(FileHandle),
}

impl View for FileLike {
    type V = HandleView;

    open spec fn view(&self) -> HandleView {
        match self {
            FileLike::File(f) => f@,
        }
    }
}

impl FileLike {
    pub fn read(&mut self, fs: &MemFS, buf: &mut [u8]) -> (r: Result<usize, Error>)
        requires
            fs.well_formed(),
            old(self)@.inode < fs@.len(),
        ensures
            final(self)@ == handle_read(fs@, old(self)@, old(buf)@.len() as int).0,
            match handle_read(fs@, old(self)@, old(buf)@.len() as int).1 {
                Ok(got) => r == Ok::<usize, Error>(got.len() as usize) && final(buf)@ == fill_front(
                    old(buf)@,
                    got,
                ),
                Err(e) => r == Err::<usize, Error>(e) && final(buf)@ == old(buf)@,
            },
    {
        match self {
            FileLike::File(file) => file.read(fs, buf),
        }
    }

    pub fn write(&mut self, fs: &mut MemFS, buf: &[u8]) -> (r: Result<usize, Error>)
        requires
            old(fs).well_formed(),
            old(self)@.inode < old(fs)@.len(),
            handle_write_fits(old(fs)@, old(self)@, buf@.len() as int),
        ensures
            final(fs).well_formed(),
            (final(fs)@, final(self)@, r) == handle_write(old(fs)@, old(self)@, buf@),
    {
        match self {
            FileLike::File(file) => file.write(fs, buf),
        }
    }

    pub fn as_file(&self) -> (r: &FileHandle)
        ensures
            r@ == self@,
    {
        match self {
            FileLike::File(file) => file,
        }
    }

    pub fn as_file_mut(&mut self) -> (r: &mut FileHandle)
        ensures
            r@ == old(self)@,
            final(self)@ == final(r)@,
    {
        match self {
            FileLike::File(file) => file,
        }
    }
}

} // verus!
