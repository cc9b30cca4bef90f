use vstd::prelude::*;

use crate::error::Error;
use crate::fs::{
    components, dot, dot_dot, fs_create, fs_find, fs_resize, fs_unlink, fs_valid, handle_read, handle_write,
    handle_write_fits, options_of_flags, root_path, split_parent_spec, FileType, HandleView,
    InodeId, InodeView, Metadata, OpenFlags, OpenOptions, O_CREATE, O_TRUNCATE,
};
use crate::process::first_free;

verus! {

/// The state of the system that the calls act on: the inode table, the open
/// descriptors, and the working directory.
pub struct KernelView {
    pub fs: Seq<InodeView>,
    pub fds: Map<usize, HandleView>,
    pub cwd: Seq<char>,
}

/// The state is usable: the inode table is valid and every open descriptor
/// refers to an inode of the table.
pub open spec fn kernel_valid(s: KernelView) -> bool {
    &&& fs_valid(s.fs)
    &&& forall|fd: usize| #[trigger] s.fds.dom().contains(fd) ==> s.fds[fd].inode < s.fs.len()
}

/// A path made absolute: a path that starts with `/` as it is, any other path
/// appended to the working directory with a `/` between them.
pub open spec fn abs_path(cwd: Seq<char>, p: Seq<char>) -> Seq<char> {
    if p.len() > 0 && p[0] == '/' {
        p
    } else if cwd == root_path() {
        root_path() + p
    } else {
        cwd + root_path() + p
    }
}

/// Following the components `comps` from inode `ino`; a `..` component is refused.
pub open spec fn walk(fs: Seq<InodeView>, ino: InodeId, comps: Seq<Seq<char>>) -> Result<InodeId, Error>
    decreases comps.len(),
{
    if comps.len() == 0 {
        Ok(ino)
    } else if comps[0] == dot_dot() {
        Err(Error::Invalid)
    } else {
        match fs_find(fs, ino, comps[0]) {
            Ok(c) => walk(fs, c, comps.drop_first()),
            Err(e) => Err(e),
        }
    }
}

/// The inode that path `p` names, from the root, relative paths from `cwd`.
pub open spec fn resolve(fs: Seq<InodeView>, cwd: Seq<char>, p: Seq<char>) -> Result<InodeId, Error> {
    walk(fs, 0, components(abs_path(cwd, p)))
}

/// Following all but the last of `comps` from `ino` and creating a regular file
/// named by the last one there.
pub open spec fn create_at(fs: Seq<InodeView>, ino: InodeId, comps: Seq<Seq<char>>) -> (
    Seq<InodeView>,
    Result<InodeId, Error>,
)
    decreases comps.len(),
{
    if comps.len() == 0 {
        (fs, Err(Error::Invalid))
    } else if comps[0] == dot_dot() {
        (fs, Err(Error::Invalid))
    } else if comps.len() == 1 {
        fs_create(fs, ino, comps[0], FileType::File)
    } else {
        match fs_find(fs, ino, comps[0]) {
            Ok(c) => create_at(fs, c, comps.drop_first()),
            Err(e) => (fs, Err(e)),
        }
    }
}

/// Creating the regular file at path `p`.
pub open spec fn create_file_model(fs: Seq<InodeView>, cwd: Seq<char>, p: Seq<char>) -> (
    Seq<InodeView>,
    Result<InodeId, Error>,
) {
    create_at(fs, 0, components(abs_path(cwd, p)))
}

/// The directory that holds the last name of `p`, and that name. A last name
/// that no lookup can reach (empty, `.` or `..`) is refused.
pub open spec fn parent_of(fs: Seq<InodeView>, cwd: Seq<char>, p: Seq<char>) -> Result<
    (InodeId, Seq<char>),
    Error,
> {
    let (pp, name) = split_parent_spec(p);
    if name.len() == 0 || name == dot() || name == dot_dot() {
        Err(Error::Invalid)
    } else {
        match resolve(fs, cwd, pp) {
            Ok(d) => if fs[d as int] is Dir {
                Ok((d, name))
            } else {
                Err(Error::NotDir)
            },
            Err(e) => Err(e),
        }
    }
}

/// `open`: find the inode of `path` (or create a regular file there when it
/// does not exist and `create` is set), then open it under the smallest free
/// descriptor at offset 0.
pub open spec fn open_model(s: KernelView, path: Seq<char>, create: bool, options: OpenOptions) -> (
    KernelView,
    Result<usize, Error>,
) {
    let (fs2, ri) = match resolve(s.fs, s.cwd, path) {
        Ok(i) => (s.fs, Ok(i)),
        Err(e) => if e == Error::NotFound && create {
            create_file_model(s.fs, s.cwd, path)
        } else {
            (s.fs, Err(e))
        },
    };
    match ri {
        Ok(ino) => {
            let fd = first_free(s.fds);
            (
                KernelView {
                    fs: fs2,
                    fds: s.fds.insert(fd, HandleView { inode: ino, offset: 0, options }),
                    cwd: s.cwd,
                },
                Ok(fd),
            )
        },
        Err(e) => (KernelView { fs: fs2, ..s }, Err(e)),
    }
}

/// `ftruncate`: set the length of the file open as `fd`.
pub open spec fn ftruncate_model(s: KernelView, fd: usize, len: usize) -> (KernelView, Result<(), Error>) {
    if !s.fds.dom().contains(fd) {
        (s, Err(Error::BadFd))
    } else {
        let (fs2, r) = fs_resize(s.fs, s.fds[fd].inode, len as int);
        (KernelView { fs: fs2, ..s }, r)
    }
}

/// `open` with flags: open as `open_model` does, creating when `CREATE` is set,
/// with the access the flags ask for; then, when `TRUNCATE` is set, cut the file
/// to length zero. A failed truncation is reported, but the descriptor stays open.
pub open spec fn open_flags_model(s: KernelView, path: Seq<char>, flags: OpenFlags) -> (
    KernelView,
    Result<usize, Error>,
) {
    let (s1, r1) = open_model(s, path, flags.has(O_CREATE), options_of_flags(flags));
    match r1 {
        Ok(fd) => if flags.has(O_TRUNCATE) {
            let (s2, r2) = ftruncate_model(s1, fd, 0);
            match r2 {
                Ok(_) => (s2, Ok(fd)),
                Err(e) => (s2, Err(e)),
            }
        } else {
            (s1, Ok(fd))
        },
        Err(e) => (s1, Err(e)),
    }
}

/// `read`: read at most `n` bytes through descriptor `fd`.
pub open spec fn read_model(s: KernelView, fd: usize, n: int) -> (KernelView, Result<Seq<u8>, Error>) {
    if !s.fds.dom().contains(fd) {
        (s, Err(Error::BadFd))
    } else {
        let (h2, r) = handle_read(s.fs, s.fds[fd], n);
        (KernelView { fds: s.fds.insert(fd, h2), ..s }, r)
    }
}

/// `write`: write `buf` through descriptor `fd`.
pub open spec fn write_model(s: KernelView, fd: usize, buf: Seq<u8>) -> (KernelView, Result<usize, Error>) {
    if !s.fds.dom().contains(fd) {
        (s, Err(Error::BadFd))
    } else {
        let (fs2, h2, r) = handle_write(s.fs, s.fds[fd], buf);
        (KernelView { fs: fs2, fds: s.fds.insert(fd, h2), cwd: s.cwd }, r)
    }
}

/// A write of `n` bytes through `fd` fits in memory.
pub open spec fn write_fits_fd(s: KernelView, fd: usize, n: int) -> bool {
    s.fds.dom().contains(fd) ==> handle_write_fits(s.fs, s.fds[fd], n)
}

/// `close`: forget descriptor `fd`.
pub open spec fn close_model(s: KernelView, fd: usize) -> (KernelView, Result<(), Error>) {
    if !s.fds.dom().contains(fd) {
        (s, Err(Error::BadFd))
    } else {
        (KernelView { fds: s.fds.remove(fd), ..s }, Ok(()))
    }
}

/// `mkdir`: create an empty directory at `path`.
pub open spec fn mkdir_model(s: KernelView, path: Seq<char>) -> (KernelView, Result<(), Error>) {
    match parent_of(s.fs, s.cwd, path) {
        Ok((d, name)) => {
            let (fs2, r) = fs_create(s.fs, d, name, FileType::Dir);
            (
                KernelView { fs: fs2, ..s },
                match r {
                    Ok(_) => Ok(()),
                    Err(e) => Err(e),
                },
            )
        },
        Err(e) => (s, Err(e)),
    }
}

/// `unlink`: remove the entry that `path` names from its directory.
pub open spec fn unlink_model(s: KernelView, path: Seq<char>) -> (KernelView, Result<(), Error>) {
    match parent_of(s.fs, s.cwd, path) {
        Ok((d, name)) => {
            let (fs2, r) = fs_unlink(s.fs, d, name);
            (KernelView { fs: fs2, ..s }, r)
        },
        Err(e) => (s, Err(e)),
    }
}

/// `fstat`: the metadata of the file open as `fd`.
pub open spec fn fstat_model(s: KernelView, fd: usize) -> Result<Metadata, Error> {
    if !s.fds.dom().contains(fd) {
        Err(Error::BadFd)
    } else {
        Ok(s.fs[s.fds[fd].inode as int].metadata())
    }
}

/// `lseek`: move the offset of descriptor `fd`.
pub open spec fn lseek_model(s: KernelView, fd: usize, offset: usize) -> (KernelView, Result<(), Error>) {
    if !s.fds.dom().contains(fd) {
        (s, Err(Error::BadFd))
    } else {
        (KernelView { fds: s.fds.insert(fd, HandleView { offset, ..s.fds[fd] }), ..s }, Ok(()))
    }
}

/// `getdents`: the entries of the directory that `path` names.
pub open spec fn getdents_model(s: KernelView, path: Seq<char>) -> Result<Map<Seq<char>, InodeId>, Error> {
    match resolve(s.fs, s.cwd, path) {
        Ok(d) => match s.fs[d as int] {
            InodeView::Dir(m) => Ok(m),
            InodeView::File(_) => Err(Error::NotDir),
        },
        Err(e) => Err(e),
    }
}

/// `chdir`: make the directory that `path` names the working directory.
pub open spec fn chdir_model(s: KernelView, path: Seq<char>) -> (KernelView, Result<(), Error>) {
    match resolve(s.fs, s.cwd, path) {
        Ok(d) => if s.fs[d as int] is Dir {
            (KernelView { cwd: abs_path(s.cwd, path), ..s }, Ok(()))
        } else {
            (s, Err(Error::NotDir))
        },
        Err(e) => (s, Err(e)),
    }
}

// ---------------------------------------------------------------------------
// Sequences of calls.
// ---------------------------------------------------------------------------

/// A call that may change the state, with its arguments (`fstat` and
/// `getdents` only look at the state).
pub enum Call {
    Open(Seq<char>, bool, OpenOptions),
    OpenFlags(Seq<char>, OpenFlags),
    Read(usize, usize),
    Write(usize, Seq<u8>),
    Close(usize),
    Mkdir(Seq<char>),
    Unlink(Seq<char>),
    Ftruncate(usize, usize),
    Lseek(usize, usize),
    Chdir(Seq<char>),
}

/// The state after call `c`, whether it succeeds or fails.
pub open spec fn call_step(s: KernelView, c: Call) -> KernelView {
    match c {
        Call::Open(p, create, options) => open_model(s, p, create, options).0,
        Call::OpenFlags(p, flags) => open_flags_model(s, p, flags).0,
        Call::Read(fd, n) => read_model(s, fd, n as int).0,
        Call::Write(fd, buf) => write_model(s, fd, buf).0,
        Call::Close(fd) => close_model(s, fd).0,
        Call::Mkdir(p) => mkdir_model(s, p).0,
        Call::Unlink(p) => unlink_model(s, p).0,
        Call::Ftruncate(fd, len) => ftruncate_model(s, fd, len).0,
        Call::Lseek(fd, offset) => lseek_model(s, fd, offset).0,
        Call::Chdir(p) => chdir_model(s, p).0,
    }
}

/// The state after the calls `calls`, in order.
pub open spec fn run_calls(s: KernelView, calls: Seq<Call>) -> KernelView
    decreases calls.len(),
{
    if calls.len() == 0 {
        s
    } else {
        run_calls(call_step(s, calls[0]), calls.drop_first())
    }
}

/// The descriptor that call `c` acts through, if it acts through one.
pub open spec fn call_fd(c: Call) -> Option<usize> {
    match c {
        Call::Read(fd, _) => Some(fd),
        Call::Write(fd, _) => Some(fd),
        Call::Close(fd) => Some(fd),
        Call::Ftruncate(fd, _) => Some(fd),
        Call::Lseek(fd, _) => Some(fd),
        _ => None,
    }
}

// ---------------------------------------------------------------------------
// Facts about the model.
// ---------------------------------------------------------------------------

/// A state whose descriptors are unchanged and whose inode table only grew
/// stays usable.
pub proof fn lemma_kernel_valid_grow(s: KernelView, t: KernelView)
    requires
        kernel_valid(s),
        fs_valid(t.fs),
        t.fds == s.fds,
        s.fs.len() <= t.fs.len(),
    ensures
        kernel_valid(t),
{
    assert forall|fd: usize| #[trigger] t.fds.dom().contains(fd) implies t.fds[fd].inode < t.fs.len() by {
        assert(s.fds.dom().contains(fd));
    }
}

/// Changing the handle of an open descriptor to one on an inode of the table
/// keeps the state usable.
pub proof fn lemma_kernel_valid_set_fd(s: KernelView, t: KernelView, fd: usize)
    requires
        kernel_valid(s),
        fs_valid(t.fs),
        s.fs.len() <= t.fs.len(),
        t.fds.dom().contains(fd) ==> t.fds[fd].inode < t.fs.len(),
        forall|j: usize| #[trigger] t.fds.dom().contains(j) && j != fd ==> s.fds.dom().contains(j) && t.fds[j] == s.fds[j],
    ensures
        kernel_valid(t),
{
    assert forall|j: usize| #[trigger] t.fds.dom().contains(j) implies t.fds[j].inode < t.fs.len() by {
        if j != fd {
            assert(s.fds.dom().contains(j));
        }
    }
}

pub proof fn lemma_walk_in_range(fs: Seq<InodeView>, ino: InodeId, comps: Seq<Seq<char>>)
    requires
        fs_valid(fs),
        ino < fs.len(),
    ensures
        walk(fs, ino, comps) matches Ok(i) ==> i < fs.len(),
    decreases comps.len(),
{
    if comps.len() > 0 && comps[0] != dot_dot() {
        if let Ok(c) = fs_find(fs, ino, comps[0]) {
            assert(fs[ino as int] is Dir && fs[ino as int]->Dir_0.dom().contains(comps[0]));
            lemma_walk_in_range(fs, c, comps.drop_first());
        }
    }
}

} // verus!
