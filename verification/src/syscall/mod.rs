mod laws;
mod model;

pub use laws::{
    lemma_chdir_then_dot, lemma_close_forgets_descriptor, lemma_close_then_open_reuses,
    lemma_fstat_reports_inode, lemma_ftruncate_sets_length, lemma_lseek_sets_offset, lemma_open_existing, lemma_mkdir_then_listed, lemma_mkdir_then_resolves,
    lemma_mkdir_succeeds, lemma_open_calls_open_same_inode, lemma_open_create_makes_empty_file,
    lemma_open_flags_create_makes_empty_file, lemma_open_then_resolves, lemma_read_moves_offset_by_count, lemma_open_truncate_empties, lemma_open_twice_same_inode,
    lemma_open_valid, lemma_other_descriptors_unchanged, lemma_resolve_root, lemma_run_keeps_descriptor,
    lemma_shared_contents_own_offsets, lemma_split_parent_rejoins, lemma_truncate_then_fstat,
    lemma_truncate_then_read, lemma_unlink_removes_entry, lemma_unlink_then_not_found,
    lemma_unlink_succeeds, lemma_walk_rejects_dot_dot, lemma_write_moves_offset_past_written,
    lemma_write_then_read,
};
pub use model::{
    abs_path, call_fd, call_step, chdir_model, close_model, create_at, create_file_model, fstat_model,
    ftruncate_model, getdents_model, kernel_valid, lseek_model, mkdir_model, open_flags_model,
    open_model, parent_of, read_model, resolve, run_calls, unlink_model, walk, write_fits_fd,
    write_model, Call, KernelView,
};

use model::{lemma_kernel_valid_grow, lemma_kernel_valid_set_fd};
use vstd::prelude::*;
use vstd::string::StrSliceExecFns;
use vstd::string::StringExecFns;

use crate::error::Error;
use crate::fs::{
    components, dot, dot_dot, fill_front, is_listing, root_path, split_parent, FileHandle, FileLike,
    FileType, InodeId, InodeView, MemFS, Metadata, OpenFlags, OpenOptions, PathCursor,
};
use crate::process::{has_free_fd, is_first_free, lemma_first_free_unique, Process};

verus! {

broadcast use vstd::string::group_string_axioms;

/// Whether `s` is the path `/`.
fn is_root(s: &str) -> (b: bool)
    ensures
        b == (s@ == root_path()),
{
    let b = s.unicode_len() == 1 && s.get_char(0) == '/';
    proof {
        if s@.len() == 1 && s@[0] == '/' {
            assert(s@ =~= root_path());
        }
    }
    b
}

/// Whether `s` is the name `.`.
fn is_dot(s: &str) -> (b: bool)
    ensures
        b == (s@ == dot()),
{
    let b = s.unicode_len() == 1 && s.get_char(0) == '.';
    proof {
        if s@.len() == 1 && s@[0] == '.' {
            assert(s@ =~= dot());
        }
    }
    b
}

/// Whether `s` is the name `..`.
fn is_dot_dot(s: &str) -> (b: bool)
    ensures
        b == (s@ == dot_dot()),
{
    let b = s.unicode_len() == 2 && s.get_char(0) == '.' && s.get_char(1) == '.';
    proof {
        if s@.len() == 2 && s@[0] == '.' && s@[1] == '.' {
            assert(s@ =~= dot_dot());
        }
    }
    b
}

/// The components of `/` are none.
proof fn lemma_components_root()
    ensures
        components(root_path()) == Seq::<Seq<char>>::empty(),
{
    crate::fs::lemma_components_leading_slash(root_path());
    assert(root_path().subrange(1, 1) =~= Seq::<char>::empty());
}

/// The system: one in-memory file system and one process that uses it.
pub struct Kernel {
    fs: MemFS,
    process: Process,
}

impl View for Kernel {
    type V = KernelView;

    closed spec fn view(&self) -> KernelView {
        KernelView { fs: self.fs@, fds: self.process.fds(), cwd: self.process.current_dir() }
    }
}

impl Kernel {
    /// The representation invariant.
    pub closed spec fn well_formed(&self) -> bool {
        &&& self.fs.well_formed()
        &&& kernel_valid(self@)
    }

    /// What a well-formed system guarantees of its state: the state is usable,
    /// the inode table fits in memory, at most `usize::MAX` descriptors are
    /// open, and some descriptor number is free.
    pub proof fn lemma_valid(&self)
        requires
            self.well_formed(),
        ensures
            kernel_valid(self@),
            self@.fs.len() <= usize::MAX,
            self@.fds.dom().finite(),
            self@.fds.dom().len() <= usize::MAX,
            has_free_fd(self@.fds),
    {
        self.fs.lemma_valid();
        self.process.lemma_free_fd();
    }

    /// A system with an empty root directory, no open descriptor, working in `/`.
    pub fn new() -> (r: Self)
        ensures
            r.well_formed(),
            r@ == (KernelView {
                fs: seq![InodeView::Dir(Map::empty())],
                fds: Map::empty(),
                cwd: root_path(),
            }),
    {
        let r = Self { fs: MemFS::new(), process: Process::new() };
        assert(r@.cwd =~= root_path());
        r
    }

    /// Makes `path` absolute against the working directory.
    fn absolute_path(&self, path: &str) -> (r: String)
        ensures
            r@ == abs_path(self@.cwd, path@),
    {
        proof {
            reveal_strlit("/");
        }
        if path.unicode_len() > 0 && path.get_char(0) == '/' {
            path.to_owned()
        } else if is_root(self.process.cwd()) {
            let abs = String::from_str("/").concat(path);
            abs
        } else {
            let abs = String::from_str(self.process.cwd()).concat("/").concat(path);
            assert(abs@ =~= self@.cwd + root_path() + path@);
            abs
        }
    }

    /// The inode that `path` names.
    fn lookup(&self, path: &str) -> (r: Result<InodeId, Error>)
        requires
            self.well_formed(),
        ensures
            r == resolve(self@.fs, self@.cwd, path@),
            r matches Ok(i) ==> i < self@.fs.len(),
    {
        let abs = self.absolute_path(path);
        let ghost comps = components(abs@);
        let mut inode = self.fs.root_inode();
        proof {
            self.fs.lemma_valid();
        }
        if is_root(abs.as_str()) {
            proof {
                lemma_components_root();
            }
            return Ok(inode);
        }
        let mut parts = PathCursor::new(abs.as_str());
        loop
            invariant
                self.well_formed(),
                inode < self@.fs.len(),
                comps == components(abs@),
                abs@ == abs_path(self@.cwd, path@),
                walk(self@.fs, inode, parts.remaining()) == walk(self@.fs, 0, comps),
            decreases parts.remaining().len(),
        {
            let ghost rem = parts.remaining();
            match parts.next() {
                None => {
                    assert(walk(self@.fs, inode, rem) == Ok::<InodeId, Error>(inode));
                    return Ok(inode);
                },
                Some(part) => {
                    assert(rem[0] == part@);
                    if is_dot_dot(part) {
                        assert(walk(self@.fs, inode, rem) == Err::<InodeId, Error>(Error::Invalid));
                        return Err(Error::Invalid);
                    }
                    match self.fs.find(inode, part) {
                        Ok(c) => {
                            assert(walk(self@.fs, inode, rem) == walk(self@.fs, c, parts.remaining()));
                            inode = c;
                        },
                        Err(e) => {
                            assert(walk(self@.fs, inode, rem) == Err::<InodeId, Error>(e));
                            return Err(e);
                        },
                    }
                },
            }
        }
    }

    /// Creates a regular file at `path`: walks to the directory that holds the
    /// last component and creates the file there.
    fn create_file(&mut self, path: &str) -> (r: Result<InodeId, Error>)
        requires
            old(self).well_formed(),
        ensures
            final(self).well_formed(),
            (final(self)@.fs, r) == create_file_model(old(self)@.fs, old(self)@.cwd, path@),
            final(self)@.fds == old(self)@.fds,
            final(self)@.cwd == old(self)@.cwd,
            r matches Ok(i) ==> i < final(self)@.fs.len(),
    {
        let abs = self.absolute_path(path);
        let ghost comps = components(abs@);
        let mut inode = self.fs.root_inode();
        proof {
            self.fs.lemma_valid();
        }
        let mut parts = PathCursor::new(abs.as_str());
        let mut part = match parts.next() {
            None => {
                return Err(Error::Invalid);
            },
            Some(p) => p,
        };
        assert(comps =~= seq![part@] + parts.remaining());
        loop
            invariant
                self == old(self),
                self.well_formed(),
                inode < self@.fs.len(),
                comps == components(abs@),
                abs@ == abs_path(self@.cwd, path@),
                create_at(self@.fs, inode, seq![part@] + parts.remaining()) == create_at(
                    self@.fs,
                    0,
                    comps,
                ),
            decreases parts.remaining().len(),
        {
            let ghost rest = parts.remaining();
            assert((seq![part@] + rest)[0] == part@);
            assert((seq![part@] + rest).drop_first() =~= rest);
            if is_dot_dot(part) {
                return Err(Error::Invalid);
            }
            match parts.next() {
                None => {
                    let ghost before = self@;
                    let r = self.fs.create(inode, part, FileType::File);
                    proof {
                        self.fs.lemma_valid();
                        lemma_kernel_valid_grow(before, self@);
                    }
                    return r;
                },
                Some(next) => {
                    assert(rest =~= seq![next@] + parts.remaining());
                    match self.fs.find(inode, part) {
                        Ok(c) => {
                            inode = c;
                        },
                        Err(e) => {
                            return Err(e);
                        },
                    }
                    part = next;
                },
            }
        }
    }

    /// The directory that holds the last name of `path`, and that name.
    fn parent_dir<'a>(&self, path: &'a str) -> (r: Result<(InodeId, &'a str), Error>)
        requires
            self.well_formed(),
        ensures
            match parent_of(self@.fs, self@.cwd, path@) {
                Ok((d, name)) => r matches Ok(p) && p.0 == d && p.1@ == name,
                Err(e) => r matches Err(e2) && e2 == e,
            },
            r matches Ok(p) ==> p.0 < self@.fs.len(),
    {
        let (parent, name) = split_parent(path);
        if name.unicode_len() == 0 || is_dot(name) || is_dot_dot(name) {
            return Err(Error::Invalid);
        }
        match self.lookup(parent) {
            Ok(dir) => {
                match self.fs.file_type(dir) {
                    FileType::Dir => Ok((dir, name)),
                    FileType::File => Err(Error::NotDir),
                }
            },
            Err(e) => Err(e),
        }
    }

    /// Opens `path`, creating a regular file there when it does not exist and
    /// `create` is set; returns the new descriptor.
    pub fn sys_open(&mut self, path: &str, create: bool, options: OpenOptions) -> (r: Result<usize, Error>)
        requires
            old(self).well_formed(),
        ensures
            final(self).well_formed(),
            (final(self)@, r) == open_model(old(self)@, path@, create, options),
            r matches Ok(fd) ==> is_first_free(old(self)@.fds, fd),
    {
        let inode = match self.lookup(path) {
            Ok(inode) => inode,
            Err(err) => {
                if err == Error::NotFound && create {
                    match self.create_file(path) {
                        Ok(inode) => inode,
                        Err(e) => {
                            return Err(e);
                        },
                    }
                } else {
                    return Err(err);
                }
            },
        };
        let file = FileHandle::new(inode, options);
        let ghost before = self@;
        let fd = self.process.add_file(FileLike::File(file));
        proof {
            lemma_first_free_unique(before.fds, fd);
            lemma_kernel_valid_set_fd(before, self@, fd);
        }
        Ok(fd)
    }

    /// Opens `path` as `flags` ask: creating it with `CREATE`, with the access
    /// `OpenOptions::from_flags` derives, and cut to length zero with `TRUNCATE`.
    pub fn sys_open_flags(&mut self, path: &str, flags: OpenFlags) -> (r: Result<usize, Error>)
        requires
            old(self).well_formed(),
        ensures
            final(self).well_formed(),
            (final(self)@, r) == open_flags_model(old(self)@, path@, flags),
            r matches Ok(fd) ==> is_first_free(old(self)@.fds, fd),
    {
        let fd = match self.sys_open(path, flags.contains(OpenFlags::create()), OpenOptions::from_flags(flags)) {
            Ok(fd) => fd,
            Err(e) => {
                return Err(e);
            },
        };
        if flags.contains(OpenFlags::truncate()) {
            match self.sys_ftruncate(fd, 0) {
                Ok(()) => {},
                Err(e) => {
                    return Err(e);
                },
            }
        }
        Ok(fd)
    }

    /// Reads through `fd` into the front of `buf`.
    pub fn sys_read(&mut self, fd: usize, buf: &mut [u8]) -> (r: Result<usize, Error>)
        requires
            old(self).well_formed(),
        ensures
            final(self).well_formed(),
            final(self)@ == read_model(old(self)@, fd, old(buf)@.len() as int).0,
            match read_model(old(self)@, fd, old(buf)@.len() as int).1 {
                Ok(got) => r == Ok::<usize, Error>(got.len() as usize) && final(buf)@ == fill_front(
                    old(buf)@,
                    got,
                ),
                Err(e) => r == Err::<usize, Error>(e) && final(buf)@ == old(buf)@,
            },
    {
        proof {
            self.fs.lemma_valid();
        }
        match self.process.take_file(fd) {
            Ok(mut file) => {
                let r = file.read(&self.fs, buf);
                self.process.put_file(fd, file);
                assert(self@.fds =~= read_model(old(self)@, fd, old(buf)@.len() as int).0.fds);
                r
            },
            Err(e) => Err(e),
        }
    }

    /// Writes `buf` through `fd`.
    pub fn sys_write(&mut self, fd: usize, buf: &[u8]) -> (r: Result<usize, Error>)
        requires
            old(self).well_formed(),
            write_fits_fd(old(self)@, fd, buf@.len() as int),
        ensures
            final(self).well_formed(),
            (final(self)@, r) == write_model(old(self)@, fd, buf@),
    {
        match self.process.take_file(fd) {
            Ok(mut file) => {
                let r = file.write(&mut self.fs, buf);
                self.process.put_file(fd, file);
                assert(self@.fds =~= write_model(old(self)@, fd, buf@).0.fds);
                r
            },
            Err(e) => Err(e),
        }
    }

    /// Closes `fd`.
    pub fn sys_close(&mut self, fd: usize) -> (r: Result<(), Error>)
        requires
            old(self).well_formed(),
        ensures
            final(self).well_formed(),
            (final(self)@, r) == close_model(old(self)@, fd),
    {
        let ghost before = self@;
        let r = self.process.close(fd);
        proof {
            lemma_kernel_valid_set_fd(before, self@, fd);
        }
        r
    }

    /// Creates an empty directory at `path`.
    pub fn sys_mkdir(&mut self, path: &str) -> (r: Result<(), Error>)
        requires
            old(self).well_formed(),
        ensures
            final(self).well_formed(),
            (final(self)@, r) == mkdir_model(old(self)@, path@),
    {
        let (dir, name) = match self.parent_dir(path) {
            Ok(p) => p,
            Err(e) => {
                return Err(e);
            },
        };
        let ghost before = self@;
        let r = self.fs.create(dir, name, FileType::Dir);
        proof {
            self.fs.lemma_valid();
            lemma_kernel_valid_grow(before, self@);
        }
        match r {
            Ok(_) => Ok(()),
            Err(e) => Err(e),
        }
    }

    /// Removes the entry that `path` names from its directory.
    pub fn sys_unlink(&mut self, path: &str) -> (r: Result<(), Error>)
        requires
            old(self).well_formed(),
        ensures
            final(self).well_formed(),
            (final(self)@, r) == unlink_model(old(self)@, path@),
    {
        let (dir, name) = match self.parent_dir(path) {
            Ok(p) => p,
            Err(e) => {
                return Err(e);
            },
        };
        let ghost before = self@;
        let r = self.fs.unlink(dir, name);
        proof {
            lemma_kernel_valid_grow(before, self@);
        }
        r
    }

    /// Whether a write of `n` bytes through `fd` fits in memory, as `sys_write`
    /// asks.
    pub fn write_fits(&self, fd: usize, n: usize) -> (b: bool)
        requires
            self.well_formed(),
        ensures
            b == write_fits_fd(self@, fd, n as int),
    {
        proof {
            self.lemma_valid();
        }
        match self.process.get_file(fd) {
            Ok(file) => file.write_fits(&self.fs, n),
            Err(_) => true,
        }
    }

    /// The metadata of the file open as `fd`.
    pub fn sys_fstat(&self, fd: usize) -> (r: Result<Metadata, Error>)
        requires
            self.well_formed(),
        ensures
            r == fstat_model(self@, fd),
    {
        match self.process.get_file_like(fd) {
            Ok(file) => file.as_file().metadata(&self.fs),
            Err(e) => Err(e),
        }
    }

    /// Sets the length of the file open as `fd`.
    pub fn sys_ftruncate(&mut self, fd: usize, len: usize) -> (r: Result<(), Error>)
        requires
            old(self).well_formed(),
        ensures
            final(self).well_formed(),
            (final(self)@, r) == ftruncate_model(old(self)@, fd, len),
    {
        proof {
            self.lemma_valid();
        }
        let inode = match self.process.get_file(fd) {
            Ok(file) => file.inode(),
            Err(e) => {
                return Err(e);
            },
        };
        assert(self@.fds.dom().contains(fd));
        let ghost before = self@;
        let r = self.fs.resize(inode, len);
        proof {
            lemma_kernel_valid_grow(before, self@);
        }
        r
    }

    /// Moves the offset of `fd` to `offset`.
    pub fn sys_lseek(&mut self, fd: usize, offset: usize) -> (r: Result<(), Error>)
        requires
            old(self).well_formed(),
        ensures
            final(self).well_formed(),
            (final(self)@, r) == lseek_model(old(self)@, fd, offset),
    {
        proof {
            self.lemma_valid();
        }
        let ghost before = self@;
        match self.process.take_file(fd) {
            Ok(mut file) => {
                file.as_file_mut().seek_set(offset);
                self.process.put_file(fd, file);
                proof {
                    assert(before.fds.dom().contains(fd));
                    lemma_kernel_valid_set_fd(before, self@, fd);
                    assert(self@.fds =~= lseek_model(before, fd, offset).0.fds);
                }
                Ok(())
            },
            Err(e) => Err(e),
        }
    }

    /// The names in the directory that `path` names, in increasing order.
    pub fn sys_getdents(&self, path: &str) -> (r: Result<Vec<String>, Error>)
        requires
            self.well_formed(),
        ensures
            match getdents_model(self@, path@) {
                Ok(m) => r matches Ok(names) && is_listing(names@.map_values(|s: String| s@), m),
                Err(e) => r matches Err(e2) && e2 == e,
            },
    {
        match self.lookup(path) {
            Ok(dir) => self.fs.list(dir),
            Err(e) => Err(e),
        }
    }

    /// Makes the directory that `path` names the working directory.
    pub fn sys_chdir(&mut self, path: &str) -> (r: Result<(), Error>)
        requires
            old(self).well_formed(),
        ensures
            final(self).well_formed(),
            (final(self)@, r) == chdir_model(old(self)@, path@),
    {
        let dir = match self.lookup(path) {
            Ok(dir) => dir,
            Err(e) => {
                return Err(e);
            },
        };
        match self.fs.file_type(dir) {
            FileType::Dir => {
                let abs = self.absolute_path(path);
                self.process.set_cwd(abs);
                Ok(())
            },
            FileType::File => Err(Error::NotDir),
        }
    }
}

impl Default for Kernel {
    fn default() -> (r: Self)
        ensures
            r.well_formed(),
            r@ == (KernelView {
                fs: seq![InodeView::Dir(Map::empty())],
                fds: Map::empty(),
                cwd: root_path(),
            }),
    {
        Self::new()
    }
}

} // verus!
