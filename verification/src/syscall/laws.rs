use vstd::prelude::*;

use crate::error::Error;
use crate::fs::{
    components, dot, dot_dot, fs_create, fs_find, fs_unlink, fs_valid, lemma_components_dot_suffix,
    lemma_components_join, lemma_components_leading_slash, lemma_components_single,
    lemma_components_slash_tail, lemma_create_keeps_entries, lemma_create_then_find,
    lemma_create_valid, lemma_last_slash_before, lemma_read_after_truncate, lemma_read_after_write,
    lemma_trim_end_slashes, lemma_unlink_then_find, root_path, split_parent_spec, trim_end_slashes,
    FileType, InodeId, InodeView, Metadata, OpenFlags, OpenOptions, O_TRUNCATE,
};
use crate::process::{
    has_free_fd, is_first_free, lemma_first_free_exists, lemma_first_free_unique, lemma_small_table_has_free,
};
use crate::syscall::model::{
    abs_path, call_fd, call_step, chdir_model, close_model, create_at, fstat_model, ftruncate_model, getdents_model, kernel_valid,
    lemma_walk_in_range, lseek_model, mkdir_model, open_flags_model, open_model, parent_of,
    read_model, resolve, run_calls, unlink_model, walk, write_fits_fd, write_model, Call, KernelView,
};

verus! {

/// Bytes written through a descriptor are read back through it once its offset
/// is moved back to where the write started.
pub proof fn lemma_write_then_read(s: KernelView, fd: usize, buf: Seq<u8>)
    requires
        kernel_valid(s),
        s.fds.dom().contains(fd),
        s.fds[fd].options.read,
        s.fds[fd].options.write,
        !s.fds[fd].options.append,
        s.fs[s.fds[fd].inode as int] is File,
        s.fds[fd].offset + buf.len() <= usize::MAX,
    ensures
        ({
            let (s1, r1) = write_model(s, fd, buf);
            let (s2, r2) = lseek_model(s1, fd, s.fds[fd].offset);
            let (s3, r3) = read_model(s2, fd, buf.len() as int);
            &&& r1 == Ok::<usize, Error>(buf.len() as usize)
            &&& r2 == Ok::<(), Error>(())
            &&& r3 == Ok::<Seq<u8>, Error>(buf)
            &&& s3.fds[fd].offset == s.fds[fd].offset + buf.len()
        }),
{
    let h = s.fds[fd];
    let d = s.fs[h.inode as int]->File_0;
    lemma_read_after_write(d, h.offset as int, buf);
}

/// Two descriptors on one inode share its contents but not their offsets: a
/// write through one is read through the other, and neither call moves the
/// other descriptor.
pub proof fn lemma_shared_contents_own_offsets(s: KernelView, fd1: usize, fd2: usize, buf: Seq<u8>)
    requires
        kernel_valid(s),
        s.fds.dom().contains(fd1),
        s.fds.dom().contains(fd2),
        fd1 != fd2,
        s.fds[fd1].inode == s.fds[fd2].inode,
        s.fds[fd1].offset == s.fds[fd2].offset,
        s.fds[fd1].options.write,
        !s.fds[fd1].options.append,
        s.fds[fd2].options.read,
        s.fs[s.fds[fd1].inode as int] is File,
        s.fds[fd1].offset + buf.len() <= usize::MAX,
    ensures
        ({
            let (s1, r1) = write_model(s, fd1, buf);
            let (s2, r2) = read_model(s1, fd2, buf.len() as int);
            &&& r1 == Ok::<usize, Error>(buf.len() as usize)
            &&& r2 == Ok::<Seq<u8>, Error>(buf)
            &&& s1.fds[fd2] == s.fds[fd2]
            &&& s2.fds[fd1] == s1.fds[fd1]
        }),
{
    let h = s.fds[fd1];
    let d = s.fs[h.inode as int]->File_0;
    lemma_read_after_write(d, h.offset as int, buf);
}

/// Reading, writing, seeking or closing through one descriptor leaves every
/// other descriptor as it was.
pub proof fn lemma_other_descriptors_unchanged(
    s: KernelView,
    fd: usize,
    other: usize,
    n: int,
    buf: Seq<u8>,
    offset: usize,
)
    requires
        kernel_valid(s),
        s.fds.dom().contains(other),
        fd != other,
    ensures
        read_model(s, fd, n).0.fds.dom().contains(other) && read_model(s, fd, n).0.fds[other]
            == s.fds[other],
        write_model(s, fd, buf).0.fds.dom().contains(other) && write_model(s, fd, buf).0.fds[other]
            == s.fds[other],
        lseek_model(s, fd, offset).0.fds.dom().contains(other) && lseek_model(s, fd, offset).0.fds[other]
            == s.fds[other],
        close_model(s, fd).0.fds.dom().contains(other) && close_model(s, fd).0.fds[other]
            == s.fds[other],
{
}

/// Opening a path that exists twice gives two distinct descriptors, both at
/// offset 0, on the same inode. In both states some descriptor number is free,
/// as it is in every live system.
pub proof fn lemma_open_twice_same_inode(
    s: KernelView,
    path: Seq<char>,
    create1: bool,
    options1: OpenOptions,
    create2: bool,
    options2: OpenOptions,
)
    requires
        kernel_valid(s),
        has_free_fd(s.fds),
        has_free_fd(open_model(s, path, create1, options1).0.fds),
        resolve(s.fs, s.cwd, path) is Ok,
    ensures
        ({
            let (s1, r1) = open_model(s, path, create1, options1);
            let (s2, r2) = open_model(s1, path, create2, options2);
            &&& r1 is Ok && r2 is Ok
            &&& r1->Ok_0 != r2->Ok_0
            &&& s2.fds[r1->Ok_0].inode == s2.fds[r2->Ok_0].inode
            &&& s2.fds[r1->Ok_0].inode == resolve(s.fs, s.cwd, path)->Ok_0
            &&& s2.fds[r1->Ok_0].offset == 0 && s2.fds[r2->Ok_0].offset == 0
        }),
{
    lemma_first_free_exists(s.fds);
    let (s1, r1) = open_model(s, path, create1, options1);
    lemma_first_free_exists(s1.fds);
}

/// Once every descriptor below `fd` is open, closing `fd` makes the next
/// successful open hand `fd` out again.
pub proof fn lemma_close_then_open_reuses(
    s: KernelView,
    fd: usize,
    path: Seq<char>,
    create: bool,
    options: OpenOptions,
)
    requires
        kernel_valid(s),
        s.fds.dom().contains(fd),
        forall|j: usize| j < fd ==> #[trigger] s.fds.dom().contains(j),
        open_model(close_model(s, fd).0, path, create, options).1 is Ok,
    ensures
        close_model(s, fd).1 == Ok::<(), Error>(()),
        open_model(close_model(s, fd).0, path, create, options).1 == Ok::<usize, Error>(fd),
{
    let s1 = close_model(s, fd).0;
    assert(is_first_free(s1.fds, fd));
    lemma_first_free_unique(s1.fds, fd);
}

/// After `ftruncate(fd, len)` succeeds, `fstat(fd)` reports a regular file of
/// `len` bytes.
pub proof fn lemma_truncate_then_fstat(s: KernelView, fd: usize, len: usize)
    requires
        kernel_valid(s),
        ftruncate_model(s, fd, len).1 is Ok,
    ensures
        fstat_model(ftruncate_model(s, fd, len).0, fd) == Ok::<Metadata, Error>(
            Metadata { file_type: FileType::File, len },
        ),
{
}

/// Reading from the start of a file just cut to `len` bytes gives its first bytes.
pub proof fn lemma_truncate_then_read(s: KernelView, fd: usize, len: usize, n: int)
    requires
        kernel_valid(s),
        s.fds.dom().contains(fd),
        s.fds[fd].options.read,
        s.fs[s.fds[fd].inode as int] is File,
        len <= s.fs[s.fds[fd].inode as int]->File_0.len(),
        0 <= n,
    ensures
        ({
            let (s1, _) = ftruncate_model(s, fd, len);
            let (s2, _) = lseek_model(s1, fd, 0);
            read_model(s2, fd, n).1 == Ok::<Seq<u8>, Error>(
                s.fs[s.fds[fd].inode as int]->File_0.subrange(0, if n < len { n } else { len as int }),
            )
        }),
{
    let d = s.fs[s.fds[fd].inode as int]->File_0;
    lemma_read_after_truncate(d, len as int, n);
}

/// A successful open with `TRUNCATE` leaves the file empty.
pub proof fn lemma_open_truncate_empties(s: KernelView, path: Seq<char>, flags: OpenFlags)
    requires
        kernel_valid(s),
        s.fs.len() <= usize::MAX,
        flags.has(O_TRUNCATE),
        open_flags_model(s, path, flags).1 is Ok,
    ensures
        fstat_model(open_flags_model(s, path, flags).0, open_flags_model(s, path, flags).1->Ok_0)
            == Ok::<Metadata, Error>(Metadata { file_type: FileType::File, len: 0 }),
{
    lemma_open_valid(s, path, flags.has(crate::fs::O_CREATE), crate::fs::options_of_flags(flags));
}

/// Creating a file along a path keeps the table usable; the table only grows and
/// the new inode is in it.
proof fn lemma_create_at_valid(fs: Seq<InodeView>, ino: InodeId, comps: Seq<Seq<char>>)
    requires
        fs_valid(fs),
        ino < fs.len(),
        fs.len() <= usize::MAX,
    ensures
        fs_valid(create_at(fs, ino, comps).0),
        fs.len() <= create_at(fs, ino, comps).0.len(),
        create_at(fs, ino, comps).1 matches Ok(i) ==> i < create_at(fs, ino, comps).0.len(),
    decreases comps.len(),
{
    if comps.len() == 1 && comps[0] != dot_dot() {
        lemma_create_valid(fs, ino, comps[0], FileType::File);
    } else if comps.len() > 1 && comps[0] != dot_dot() {
        if let Ok(c) = fs_find(fs, ino, comps[0]) {
            assert(fs[ino as int] is Dir && fs[ino as int]->Dir_0.dom().contains(comps[0]));
            lemma_create_at_valid(fs, c, comps.drop_first());
        }
    }
}

/// `open` keeps the state usable, and a descriptor it hands out refers to an
/// inode of the table.
pub proof fn lemma_open_valid(s: KernelView, path: Seq<char>, create: bool, options: OpenOptions)
    requires
        kernel_valid(s),
        s.fs.len() <= usize::MAX,
    ensures
        kernel_valid(open_model(s, path, create, options).0),
        open_model(s, path, create, options).1 matches Ok(fd) ==> open_model(
            s,
            path,
            create,
            options,
        ).0.fds.dom().contains(fd) && open_model(s, path, create, options).0.fds[fd].inode < open_model(
            s,
            path,
            create,
            options,
        ).0.fs.len(),
{
    let comps = components(abs_path(s.cwd, path));
    lemma_walk_in_range(s.fs, 0, comps);
    lemma_create_at_valid(s.fs, 0, comps);
    let (s1, r) = open_model(s, path, create, options);
    assert forall|fd: usize| #[trigger] s1.fds.dom().contains(fd) implies s1.fds[fd].inode < s1.fs.len() by {
        if s.fds.dom().contains(fd) && !(r is Ok && fd == r->Ok_0) {
            assert(s1.fds[fd] == s.fds[fd]);
        }
    }
}

/// Creating a file along a path keeps every entry that was found before.
proof fn lemma_create_at_keeps_entries(
    fs: Seq<InodeView>,
    ino: InodeId,
    comps: Seq<Seq<char>>,
    i: InodeId,
    k: Seq<char>,
)
    requires
        fs_valid(fs),
        ino < fs.len(),
        i < fs.len(),
        fs_find(fs, i, k) is Ok,
    ensures
        fs_find(create_at(fs, ino, comps).0, i, k) == fs_find(fs, i, k),
    decreases comps.len(),
{
    if comps.len() == 1 && comps[0] != dot_dot() {
        lemma_create_keeps_entries(fs, ino, comps[0], FileType::File, i, k);
    } else if comps.len() > 1 && comps[0] != dot_dot() {
        if let Ok(c) = fs_find(fs, ino, comps[0]) {
            assert(fs[ino as int] is Dir && fs[ino as int]->Dir_0.dom().contains(comps[0]));
            lemma_create_at_keeps_entries(fs, c, comps.drop_first(), i, k);
        }
    }
}

/// A file created along a path is found by walking the same path.
proof fn lemma_create_at_found(fs: Seq<InodeView>, ino: InodeId, comps: Seq<Seq<char>>)
    requires
        fs_valid(fs),
        ino < fs.len(),
        create_at(fs, ino, comps).1 is Ok,
    ensures
        walk(create_at(fs, ino, comps).0, ino, comps) == create_at(fs, ino, comps).1,
    decreases comps.len(),
{
    let (fs2, r) = create_at(fs, ino, comps);
    if comps.len() == 1 {
        lemma_create_then_find(fs, ino, comps[0], FileType::File);
        let x = r->Ok_0;
        assert(fs_find(fs2, ino, comps[0]) == Ok::<InodeId, Error>(x));
        assert(walk(fs2, x, comps.drop_first()) == Ok::<InodeId, Error>(x));
    } else {
        let c = fs_find(fs, ino, comps[0])->Ok_0;
        assert(fs[ino as int] is Dir && fs[ino as int]->Dir_0.dom().contains(comps[0]));
        lemma_create_at_keeps_entries(fs, c, comps.drop_first(), ino, comps[0]);
        lemma_create_at_found(fs, c, comps.drop_first());
        assert(fs_find(fs2, ino, comps[0]) == Ok::<InodeId, Error>(c));
        assert(walk(fs2, ino, comps) == walk(fs2, c, comps.drop_first()));
    }
}

/// After a successful `open`, the path names the inode the new descriptor
/// refers to, whether the file was there before or was just created.
pub proof fn lemma_open_then_resolves(s: KernelView, path: Seq<char>, create: bool, options: OpenOptions)
    requires
        kernel_valid(s),
        open_model(s, path, create, options).1 is Ok,
    ensures
        ({
            let (s1, r) = open_model(s, path, create, options);
            &&& s1.fds.dom().contains(r->Ok_0)
            &&& resolve(s1.fs, s1.cwd, path) == Ok::<InodeId, Error>(s1.fds[r->Ok_0].inode)
        }),
{
    let comps = components(abs_path(s.cwd, path));
    if resolve(s.fs, s.cwd, path) is Err {
        lemma_create_at_found(s.fs, 0, comps);
    }
}

/// Adding an entry keeps every walk that succeeded before.
proof fn lemma_walk_stable_create(
    fs: Seq<InodeView>,
    dir: InodeId,
    name: Seq<char>,
    ft: FileType,
    ino: InodeId,
    comps: Seq<Seq<char>>,
)
    requires
        fs_valid(fs),
        dir < fs.len(),
        ino < fs.len(),
        walk(fs, ino, comps) is Ok,
    ensures
        walk(fs_create(fs, dir, name, ft).0, ino, comps) == walk(fs, ino, comps),
    decreases comps.len(),
{
    if comps.len() > 0 {
        lemma_create_keeps_entries(fs, dir, name, ft, ino, comps[0]);
        let c = fs_find(fs, ino, comps[0])->Ok_0;
        assert(fs[ino as int] is Dir && fs[ino as int]->Dir_0.dom().contains(comps[0]));
        lemma_walk_stable_create(fs, dir, name, ft, c, comps.drop_first());
    }
}

/// After `mkdir(path)` succeeds, listing the parent directory of `path` shows
/// the new name, and it names an empty directory.
pub proof fn lemma_mkdir_then_listed(s: KernelView, path: Seq<char>)
    requires
        kernel_valid(s),
        s.fs.len() <= usize::MAX,
        mkdir_model(s, path).1 is Ok,
    ensures
        ({
            let s1 = mkdir_model(s, path).0;
            let (parent, name) = split_parent_spec(path);
            &&& getdents_model(s1, parent) is Ok
            &&& getdents_model(s1, parent)->Ok_0.dom().contains(name)
            &&& s1.fs[getdents_model(s1, parent)->Ok_0[name] as int] == InodeView::Dir(Map::empty())
        }),
{
    let (parent, name) = split_parent_spec(path);
    let comps = components(abs_path(s.cwd, parent));
    lemma_walk_in_range(s.fs, 0, comps);
    let (d, nm) = parent_of(s.fs, s.cwd, path)->Ok_0;
    assert(nm == name);
    lemma_walk_stable_create(s.fs, d, name, FileType::Dir, 0, comps);
    lemma_create_then_find(s.fs, d, name, FileType::Dir);
    let s1 = mkdir_model(s, path).0;
    let fs1 = fs_create(s.fs, d, name, FileType::Dir).0;
    assert(s1.fs == fs1);
    assert(s1.cwd == s.cwd);
    assert(resolve(s1.fs, s1.cwd, parent) == Ok::<InodeId, Error>(d));
    let id = s.fs.len() as InodeId;
    assert(fs_find(fs1, d, name) == Ok::<InodeId, Error>(id));
    assert(fs1[d as int] is Dir);
    assert(getdents_model(s1, parent) == Ok::<Map<Seq<char>, InodeId>, Error>(fs1[d as int]->Dir_0));
    assert(fs1[d as int]->Dir_0.dom().contains(name));
    assert(fs1[d as int]->Dir_0[name] == id);
    assert(fs1[id as int] == crate::fs::empty_inode(FileType::Dir));
}

/// After `unlink(path)` succeeds, the entry is gone from its directory.
pub proof fn lemma_unlink_removes_entry(s: KernelView, path: Seq<char>)
    requires
        kernel_valid(s),
        unlink_model(s, path).1 is Ok,
    ensures
        parent_of(s.fs, s.cwd, path) is Ok,
        ({
            let (d, name) = parent_of(s.fs, s.cwd, path)->Ok_0;
            let s1 = unlink_model(s, path).0;
            &&& s1.fs[d as int] is Dir
            &&& !s1.fs[d as int]->Dir_0.dom().contains(name)
        }),
{
    let (parent, name) = split_parent_spec(path);
    lemma_walk_in_range(s.fs, 0, components(abs_path(s.cwd, parent)));
}

/// A path that resolves has no `..` component.
pub proof fn lemma_walk_rejects_dot_dot(fs: Seq<InodeView>, ino: InodeId, comps: Seq<Seq<char>>)
    requires
        walk(fs, ino, comps) is Ok,
    ensures
        forall|k: int| 0 <= k < comps.len() ==> comps[k] != dot_dot(),
    decreases comps.len(),
{
    if comps.len() > 0 {
        let c = fs_find(fs, ino, comps[0])->Ok_0;
        lemma_walk_rejects_dot_dot(fs, c, comps.drop_first());
        assert forall|k: int| 0 <= k < comps.len() implies comps[k] != dot_dot() by {
            if k > 0 {
                assert(comps[k] == comps.drop_first()[k - 1]);
            }
        }
    }
}

/// The root path names the root directory.
pub proof fn lemma_resolve_root(s: KernelView)
    ensures
        resolve(s.fs, s.cwd, root_path()) == Ok::<InodeId, Error>(0),
{
    super::lemma_components_root();
}

/// `split_parent` divides a path into a parent and a name that rejoin into the
/// path without its trailing `/`; the name holds no `/`.
pub proof fn lemma_split_parent_rejoins(p: Seq<char>)
    ensures
        ({
            let (parent, name) = split_parent_spec(p);
            let t = trim_end_slashes(p);
            &&& forall|j: int| 0 <= j < name.len() ==> name[j] != '/'
            &&& t.len() == 0 ==> parent == root_path() && name.len() == 0
            &&& t.len() > 0 ==> {
                ||| parent == dot() && name == t
                ||| parent == root_path() && root_path() + name == t
                ||| parent.len() > 0 && parent + root_path() + name == t
            }
        }),
{
    lemma_trim_end_slashes(p);
    let t = trim_end_slashes(p);
    let (parent, name) = split_parent_spec(p);
    if t.len() > 0 {
        lemma_last_slash_before(t, t.len() as int);
        let pos = crate::fs::last_slash_before(t, t.len() as int);
        if t == root_path() {
            assert(t.last() == '/');
        } else if pos == 0 {
            assert(root_path() + name =~= t);
        } else if pos > 0 {
            assert(parent + root_path() + name =~= t);
        }
    }
}

/// The components of a path, made absolute, are those of its parent directory
/// followed by its last name, when that name is neither empty nor `.`.
proof fn lemma_components_parent(cwd: Seq<char>, path: Seq<char>)
    requires
        split_parent_spec(path).1.len() > 0,
        split_parent_spec(path).1 != dot(),
    ensures
        components(abs_path(cwd, path)) == components(abs_path(cwd, split_parent_spec(path).0)) + seq![
            split_parent_spec(path).1,
        ],
{
    lemma_split_parent_rejoins(path);
    lemma_trim_end_slashes(path);
    let t = trim_end_slashes(path);
    let (pp, name) = split_parent_spec(path);
    lemma_components_single(name);
    let tail = path.subrange(t.len() as int, path.len() as int);
    assert(path =~= t + tail);
    assert forall|j: int| 0 <= j < tail.len() implies tail[j] == '/' by {
        assert(tail[j] == path[t.len() + j]);
    }
    assert(path[0] == t[0]);
    let pre = if cwd == root_path() {
        root_path()
    } else {
        cwd + root_path()
    };
    if path[0] != '/' {
        assert(abs_path(cwd, path) =~= pre + path);
        assert(pre + path =~= (pre + t) + tail);
        lemma_components_slash_tail(pre + t, tail);
    } else {
        lemma_components_slash_tail(t, tail);
    }
    if pp == dot() && name == t {
        assert(name[0] != '/');
        assert(abs_path(cwd, pp) =~= pre + dot());
        if cwd == root_path() {
            assert(pre + t =~= seq!['/'] + name);
            lemma_components_leading_slash(pre + t);
            assert((pre + t).subrange(1, (pre + t).len() as int) =~= name);
            assert(pre + dot() =~= seq!['/', '.']);
            lemma_components_dot_suffix(Seq::<char>::empty());
            assert(Seq::<char>::empty() + seq!['/', '.'] =~= seq!['/', '.']);
            assert(components(Seq::<char>::empty()) =~= Seq::<Seq<char>>::empty());
            assert(Seq::<Seq<char>>::empty() + seq![name] =~= seq![name]);
        } else {
            assert(pre + t =~= cwd + seq!['/'] + name);
            lemma_components_join(cwd, name);
            assert(pre + dot() =~= cwd + seq!['/', '.']);
            lemma_components_dot_suffix(cwd);
        }
    } else if pp == root_path() && root_path() + name == t {
        assert(path[0] == '/');
        lemma_components_leading_slash(t);
        assert(t.subrange(1, t.len() as int) =~= name);
        super::lemma_components_root();
        assert(Seq::<Seq<char>>::empty() + seq![name] =~= seq![name]);
    } else {
        assert(pp.len() > 0 && pp + root_path() + name == t);
        assert(pp[0] == t[0]);
        lemma_components_join(pp, name);
        assert(pp + root_path() + name =~= pp + seq!['/'] + name);
        if path[0] != '/' {
            assert(abs_path(cwd, pp) =~= pre + pp);
            assert(pre + t =~= (pre + pp) + seq!['/'] + name);
            lemma_components_join(pre + pp, name);
        }
    }
}

/// Walking a path one component longer takes one more step from where the
/// shorter walk ended.
proof fn lemma_walk_append(fs: Seq<InodeView>, ino: InodeId, a: Seq<Seq<char>>, x: Seq<char>)
    ensures
        walk(fs, ino, a + seq![x]) == match walk(fs, ino, a) {
            Ok(d) => walk(fs, d, seq![x]),
            Err(e) => Err(e),
        },
    decreases a.len(),
{
    if a.len() > 0 {
        assert((a + seq![x])[0] == a[0]);
        assert((a + seq![x]).drop_first() =~= a.drop_first() + seq![x]);
        if a[0] != dot_dot() {
            if let Ok(c) = fs_find(fs, ino, a[0]) {
                lemma_walk_append(fs, c, a.drop_first(), x);
            }
        }
    } else {
        assert(a + seq![x] =~= seq![x]);
    }
}

/// A walk only moves to higher inode numbers.
proof fn lemma_walk_increasing(fs: Seq<InodeView>, ino: InodeId, comps: Seq<Seq<char>>)
    requires
        fs_valid(fs),
        ino < fs.len(),
        walk(fs, ino, comps) is Ok,
    ensures
        ino <= walk(fs, ino, comps)->Ok_0,
    decreases comps.len(),
{
    if comps.len() > 0 {
        let c = fs_find(fs, ino, comps[0])->Ok_0;
        assert(fs[ino as int] is Dir && fs[ino as int]->Dir_0.dom().contains(comps[0]));
        lemma_walk_increasing(fs, c, comps.drop_first());
    }
}

/// Removing an entry of directory `dir` keeps every walk that ends at or below
/// `dir`: such a walk only passes through directories numbered below `dir`.
proof fn lemma_walk_stable_unlink(
    fs: Seq<InodeView>,
    dir: InodeId,
    name: Seq<char>,
    ino: InodeId,
    comps: Seq<Seq<char>>,
)
    requires
        fs_valid(fs),
        dir < fs.len(),
        ino < fs.len(),
        walk(fs, ino, comps) is Ok,
        walk(fs, ino, comps)->Ok_0 <= dir,
    ensures
        walk(fs_unlink(fs, dir, name).0, ino, comps) == walk(fs, ino, comps),
    decreases comps.len(),
{
    if comps.len() > 0 {
        let c = fs_find(fs, ino, comps[0])->Ok_0;
        assert(fs[ino as int] is Dir && fs[ino as int]->Dir_0.dom().contains(comps[0]));
        lemma_walk_increasing(fs, c, comps.drop_first());
        assert(ino != dir);
        assert(fs_unlink(fs, dir, name).0[ino as int] == fs[ino as int]);
        lemma_walk_stable_unlink(fs, dir, name, c, comps.drop_first());
    }
}

/// After `mkdir(path)` succeeds, `path` names the new, empty directory.
pub proof fn lemma_mkdir_then_resolves(s: KernelView, path: Seq<char>)
    requires
        kernel_valid(s),
        s.fs.len() <= usize::MAX,
        mkdir_model(s, path).1 is Ok,
    ensures
        ({
            let s1 = mkdir_model(s, path).0;
            &&& resolve(s1.fs, s1.cwd, path) == Ok::<InodeId, Error>(s.fs.len() as InodeId)
            &&& s1.fs[s.fs.len() as int] == InodeView::Dir(Map::empty())
        }),
{
    let (parent, name) = split_parent_spec(path);
    let comps = components(abs_path(s.cwd, parent));
    lemma_walk_in_range(s.fs, 0, comps);
    let (d, nm) = parent_of(s.fs, s.cwd, path)->Ok_0;
    lemma_walk_stable_create(s.fs, d, name, FileType::Dir, 0, comps);
    lemma_create_then_find(s.fs, d, name, FileType::Dir);
    lemma_components_parent(s.cwd, path);
    let fs1 = fs_create(s.fs, d, name, FileType::Dir).0;
    lemma_walk_append(fs1, 0, comps, name);
    let id = s.fs.len() as InodeId;
    assert(fs_find(fs1, d, name) == Ok::<InodeId, Error>(id));
    assert(walk(fs1, d, seq![name]) == walk(fs1, id, seq![name].drop_first()));
}

/// After `unlink(path)` succeeds, `path` no longer names anything.
pub proof fn lemma_unlink_then_not_found(s: KernelView, path: Seq<char>)
    requires
        kernel_valid(s),
        unlink_model(s, path).1 is Ok,
    ensures
        resolve(unlink_model(s, path).0.fs, s.cwd, path) == Err::<InodeId, Error>(Error::NotFound),
{
    let (parent, name) = split_parent_spec(path);
    let comps = components(abs_path(s.cwd, parent));
    lemma_walk_in_range(s.fs, 0, comps);
    let (d, nm) = parent_of(s.fs, s.cwd, path)->Ok_0;
    lemma_walk_stable_unlink(s.fs, d, name, 0, comps);
    lemma_unlink_then_find(s.fs, d, name);
    lemma_components_parent(s.cwd, path);
    let fs1 = fs_unlink(s.fs, d, name).0;
    lemma_walk_append(fs1, 0, comps, name);
}

/// After `chdir(path)` succeeds, `.` names the directory that `path` named.
pub proof fn lemma_chdir_then_dot(s: KernelView, path: Seq<char>)
    requires
        chdir_model(s, path).1 is Ok,
    ensures
        resolve(s.fs, chdir_model(s, path).0.cwd, dot()) == resolve(s.fs, s.cwd, path),
{
    let cwd2 = abs_path(s.cwd, path);
    assert(dot()[0] == '.');
    if cwd2 == root_path() {
        assert(abs_path(cwd2, dot()) =~= Seq::<char>::empty() + seq!['/', '.']);
        lemma_components_dot_suffix(Seq::<char>::empty());
        assert(Seq::<char>::empty() + seq!['/'] + Seq::<char>::empty() =~= root_path());
        lemma_components_join(Seq::<char>::empty(), Seq::<char>::empty());
    } else {
        assert(abs_path(cwd2, dot()) =~= cwd2 + seq!['/', '.']);
        lemma_components_dot_suffix(cwd2);
    }
}

/// One call opens at most one descriptor, closes none but the one it closes,
/// and changes the handle of no descriptor but the one it acts through.
proof fn lemma_step_fds(s: KernelView, c: Call, fd: usize)
    requires
        s.fds.dom().finite(),
        has_free_fd(s.fds),
    ensures
        call_step(s, c).fds.dom().finite(),
        call_step(s, c).fds.dom().len() <= s.fds.dom().len() + 1,
        s.fds.dom().contains(fd) && c != Call::Close(fd) ==> call_step(s, c).fds.dom().contains(fd)
            && call_step(s, c).fds[fd].inode == s.fds[fd].inode,
        s.fds.dom().contains(fd) && call_fd(c) != Some(fd) ==> call_step(s, c).fds[fd] == s.fds[fd],
{
    lemma_first_free_exists(s.fds);
    let t = call_step(s, c);
    match c {
        Call::Close(x) => {
            if s.fds.dom().contains(x) {
                assert(t.fds.dom() =~= s.fds.dom().remove(x));
            }
        },
        Call::Read(x, n) => {
            if s.fds.dom().contains(x) {
                assert(t.fds.dom() =~= s.fds.dom());
            }
        },
        Call::Write(x, buf) => {
            if s.fds.dom().contains(x) {
                assert(t.fds.dom() =~= s.fds.dom());
            }
        },
        Call::Lseek(x, offset) => {
            if s.fds.dom().contains(x) {
                assert(t.fds.dom() =~= s.fds.dom());
            }
        },
        _ => {},
    }
}

/// Over any sequence of calls, a descriptor that is not closed stays open on
/// the same inode, and its handle, offset included, stays as it was unless a
/// call acts through it. The sequence is bounded by the number of descriptors
/// a table can hold.
pub proof fn lemma_run_keeps_descriptor(s: KernelView, calls: Seq<Call>, fd: usize)
    requires
        s.fds.dom().finite(),
        s.fds.dom().len() + calls.len() <= usize::MAX,
        s.fds.dom().contains(fd),
        forall|i: int| 0 <= i < calls.len() ==> #[trigger] calls[i] != Call::Close(fd),
    ensures
        run_calls(s, calls).fds.dom().finite(),
        run_calls(s, calls).fds.dom().len() <= s.fds.dom().len() + calls.len(),
        run_calls(s, calls).fds.dom().contains(fd),
        run_calls(s, calls).fds[fd].inode == s.fds[fd].inode,
        (forall|i: int| 0 <= i < calls.len() ==> call_fd(#[trigger] calls[i]) != Some(fd)) ==> run_calls(
            s,
            calls,
        ).fds[fd] == s.fds[fd],
    decreases calls.len(),
{
    if calls.len() > 0 {
        lemma_small_table_has_free(s.fds);
        lemma_step_fds(s, calls[0], fd);
        assert(calls[0] != Call::Close(fd));
        let rest = calls.drop_first();
        assert forall|i: int| 0 <= i < rest.len() implies #[trigger] rest[i] != Call::Close(fd) by {
            assert(rest[i] == calls[i + 1]);
        }
        lemma_run_keeps_descriptor(call_step(s, calls[0]), rest, fd);
        if forall|i: int| 0 <= i < calls.len() ==> call_fd(#[trigger] calls[i]) != Some(fd) {
            assert(call_fd(calls[0]) != Some(fd));
            assert forall|i: int| 0 <= i < rest.len() implies call_fd(#[trigger] rest[i]) != Some(fd) by {
                assert(rest[i] == calls[i + 1]);
            }
        }
    }
}

/// Two opens of one path with any other calls in between give distinct
/// descriptors on one inode, as long as the first is not closed and the path
/// still names that inode: the second starts at offset 0, and the first keeps
/// the handle the calls in between left it, which is the one it was opened
/// with when none of them acted through it.
pub proof fn lemma_open_calls_open_same_inode(
    s: KernelView,
    path: Seq<char>,
    create1: bool,
    options1: OpenOptions,
    calls: Seq<Call>,
    options2: OpenOptions,
)
    requires
        s.fds.dom().finite(),
        s.fds.dom().len() + calls.len() + 2 <= usize::MAX,
        open_model(s, path, create1, options1).1 is Ok,
        forall|i: int|
            0 <= i < calls.len() ==> #[trigger] calls[i] != Call::Close(
                open_model(s, path, create1, options1).1->Ok_0,
            ),
        ({
            let (s1, r1) = open_model(s, path, create1, options1);
            let s2 = run_calls(s1, calls);
            resolve(s2.fs, s2.cwd, path) == Ok::<InodeId, Error>(s1.fds[r1->Ok_0].inode)
        }),
    ensures
        ({
            let (s1, r1) = open_model(s, path, create1, options1);
            let fd1 = r1->Ok_0;
            let s2 = run_calls(s1, calls);
            let (s3, r2) = open_model(s2, path, false, options2);
            &&& r2 is Ok
            &&& r2->Ok_0 != fd1
            &&& s3.fds.dom().contains(fd1) && s3.fds.dom().contains(r2->Ok_0)
            &&& s3.fds[fd1].inode == s3.fds[r2->Ok_0].inode
            &&& s3.fds[r2->Ok_0].offset == 0
            &&& s3.fds[fd1] == s2.fds[fd1]
            &&& (forall|i: int| 0 <= i < calls.len() ==> call_fd(#[trigger] calls[i]) != Some(fd1))
                ==> s3.fds[fd1] == s1.fds[fd1] && s3.fds[fd1].offset == 0
        }),
{
    lemma_small_table_has_free(s.fds);
    lemma_first_free_exists(s.fds);
    let (s1, r1) = open_model(s, path, create1, options1);
    let fd1 = r1->Ok_0;
    assert(s1.fds.dom() =~= s.fds.dom().insert(fd1));
    lemma_run_keeps_descriptor(s1, calls, fd1);
    let s2 = run_calls(s1, calls);
    lemma_small_table_has_free(s2.fds);
    lemma_first_free_exists(s2.fds);
}

/// A successful read through a descriptor returns the file's bytes from the
/// descriptor's offset: as many as the buffer holds, or up to the end of the
/// file when fewer are left (none at or past the end). The offset then moves
/// on by exactly the number of bytes returned, whatever the buffer's length,
/// and nothing else changes.
pub proof fn lemma_read_moves_offset_by_count(s: KernelView, fd: usize, n: int)
    requires
        kernel_valid(s),
        0 <= n,
    ensures
        read_model(s, fd, n).1 matches Ok(got) ==> {
            let h = s.fds[fd];
            let data = s.fs[h.inode as int]->File_0;
            let s1 = read_model(s, fd, n).0;
            &&& s.fds.dom().contains(fd)
            &&& s.fs[h.inode as int] is File
            &&& got.len() == if h.offset >= data.len() {
                0
            } else if h.offset + n <= data.len() {
                n
            } else {
                data.len() - h.offset
            }
            &&& forall|i: int| 0 <= i < got.len() ==> #[trigger] got[i] == data[h.offset + i]
            &&& s1.fds.dom().contains(fd)
            &&& s1.fds[fd].offset == h.offset + got.len()
            &&& s1.fds[fd].inode == h.inode && s1.fds[fd].options == h.options
            &&& s1.fs == s.fs
        },
{
    if read_model(s, fd, n).1 is Ok {
        let h = s.fds[fd];
        assert(s.fs[h.inode as int] is File);
        let data = s.fs[h.inode as int]->File_0;
        assert(data.len() <= usize::MAX);
    }
}

/// A successful write of `buf` through a descriptor puts the bytes at the
/// descriptor's offset (at the end of the file for an appending descriptor),
/// keeps every other byte, and moves the offset to just past the written
/// bytes: a write in the middle of a file leaves the offset in the middle.
pub proof fn lemma_write_moves_offset_past_written(s: KernelView, fd: usize, buf: Seq<u8>)
    requires
        kernel_valid(s),
        write_fits_fd(s, fd, buf.len() as int),
    ensures
        write_model(s, fd, buf).1 matches Ok(n) ==> {
            let h = s.fds[fd];
            let data = s.fs[h.inode as int]->File_0;
            let p = if h.options.append {
                data.len() as int
            } else {
                h.offset as int
            };
            let s1 = write_model(s, fd, buf).0;
            let data1 = s1.fs[h.inode as int]->File_0;
            &&& s.fds.dom().contains(fd)
            &&& s.fs[h.inode as int] is File
            &&& n == buf.len()
            &&& s1.fds.dom().contains(fd)
            &&& s1.fds[fd].offset == p + n
            &&& s1.fds[fd].inode == h.inode && s1.fds[fd].options == h.options
            &&& s1.fs[h.inode as int] is File
            &&& data1.len() == if p + n > data.len() {
                p + n
            } else {
                data.len() as int
            }
            &&& forall|i: int| 0 <= i < n ==> #[trigger] data1[p + i] == buf[i]
            &&& forall|i: int| 0 <= i < data.len() && !(p <= i < p + n) ==> #[trigger] data1[i] == data[i]
            &&& forall|i: int| data.len() <= i < p ==> #[trigger] data1[i] == 0u8
        },
{
    if write_model(s, fd, buf).1 is Ok {
        let h = s.fds[fd];
        let data = s.fs[h.inode as int]->File_0;
        let p = if h.options.append {
            data.len() as int
        } else {
            h.offset as int
        };
        crate::fs::lemma_write_keeps_other_bytes(data, p, buf);
        let data1 = write_model(s, fd, buf).0.fs[h.inode as int]->File_0;
        assert forall|i: int| 0 <= i < buf.len() implies #[trigger] data1[p + i] == buf[i] by {
            assert(data1[p + i] == buf[(p + i) - p]);
        }
    }
}

/// Following the components `a` and then creating `x` is creating `x` in the
/// directory that `a` leads to.
proof fn lemma_create_at_append(fs: Seq<InodeView>, ino: InodeId, a: Seq<Seq<char>>, x: Seq<char>)
    requires
        x != dot_dot(),
    ensures
        create_at(fs, ino, a + seq![x]) == match walk(fs, ino, a) {
            Ok(d) => fs_create(fs, d, x, FileType::File),
            Err(e) => (fs, Err::<InodeId, Error>(e)),
        },
    decreases a.len(),
{
    if a.len() > 0 {
        assert((a + seq![x])[0] == a[0]);
        assert((a + seq![x]).drop_first() =~= a.drop_first() + seq![x]);
        if a[0] != dot_dot() {
            if let Ok(c) = fs_find(fs, ino, a[0]) {
                lemma_create_at_append(fs, c, a.drop_first(), x);
            }
        }
    } else {
        assert(a + seq![x] =~= seq![x]);
    }
}

/// Opening with `create` a path whose directory exists and whose last name
/// (neither empty, `.` nor `..`) is missing succeeds: it creates an empty
/// regular file there, the path then names it, and the new descriptor is the
/// smallest free one, on that file, at offset 0.
pub proof fn lemma_open_create_makes_empty_file(s: KernelView, path: Seq<char>, options: OpenOptions)
    requires
        kernel_valid(s),
        s.fs.len() <= usize::MAX,
        has_free_fd(s.fds),
        split_parent_spec(path).1.len() > 0,
        split_parent_spec(path).1 != dot(),
        split_parent_spec(path).1 != dot_dot(),
        resolve(s.fs, s.cwd, split_parent_spec(path).0) matches Ok(d) && s.fs[d as int] is Dir
            && !s.fs[d as int]->Dir_0.dom().contains(split_parent_spec(path).1),
    ensures
        ({
            let (s1, r) = open_model(s, path, true, options);
            &&& r is Ok
            &&& is_first_free(s.fds, r->Ok_0)
            &&& s1.fds.dom().contains(r->Ok_0)
            &&& s1.fds[r->Ok_0].inode == s.fs.len()
            &&& s1.fds[r->Ok_0].offset == 0
            &&& s1.fds[r->Ok_0].options == options
            &&& s1.fs.len() == s.fs.len() + 1
            &&& s1.fs[s.fs.len() as int] == InodeView::File(Seq::empty())
            &&& resolve(s1.fs, s1.cwd, path) == Ok::<InodeId, Error>(s.fs.len() as InodeId)
        }),
{
    let (pp, name) = split_parent_spec(path);
    let d = resolve(s.fs, s.cwd, pp)->Ok_0;
    let comps = components(abs_path(s.cwd, pp));
    lemma_walk_in_range(s.fs, 0, comps);
    lemma_components_parent(s.cwd, path);
    lemma_walk_append(s.fs, 0, comps, name);
    assert(walk(s.fs, d, seq![name]) == Err::<InodeId, Error>(Error::NotFound));
    assert(resolve(s.fs, s.cwd, path) == Err::<InodeId, Error>(Error::NotFound));
    lemma_create_at_append(s.fs, 0, comps, name);
    lemma_create_then_find(s.fs, d, name, FileType::File);
    lemma_first_free_exists(s.fds);
    lemma_open_then_resolves(s, path, true, options);
}

/// Opening with flags that hold `CREATE` creates the missing file as `open`
/// with `create` does, whatever other flags are set: the call succeeds, the
/// path names the new descriptor's inode, and the file is empty.
pub proof fn lemma_open_flags_create_makes_empty_file(s: KernelView, path: Seq<char>, flags: OpenFlags)
    requires
        kernel_valid(s),
        s.fs.len() <= usize::MAX,
        has_free_fd(s.fds),
        flags.has(crate::fs::O_CREATE),
        split_parent_spec(path).1.len() > 0,
        split_parent_spec(path).1 != dot(),
        split_parent_spec(path).1 != dot_dot(),
        resolve(s.fs, s.cwd, split_parent_spec(path).0) matches Ok(d) && s.fs[d as int] is Dir
            && !s.fs[d as int]->Dir_0.dom().contains(split_parent_spec(path).1),
    ensures
        ({
            let (s1, r) = open_flags_model(s, path, flags);
            &&& r is Ok
            &&& is_first_free(s.fds, r->Ok_0)
            &&& s1.fds.dom().contains(r->Ok_0)
            &&& s1.fds[r->Ok_0].inode == s.fs.len()
            &&& s1.fs[s.fs.len() as int] == InodeView::File(Seq::empty())
            &&& resolve(s1.fs, s1.cwd, path) == Ok::<InodeId, Error>(s1.fds[r->Ok_0].inode)
        }),
{
    let options = crate::fs::options_of_flags(flags);
    lemma_open_create_makes_empty_file(s, path, options);
    let (s1, r1) = open_model(s, path, true, options);
    let fd = r1->Ok_0;
    if flags.has(O_TRUNCATE) {
        let id = s.fs.len() as int;
        assert(crate::fs::file_resize(Seq::<u8>::empty(), 0) =~= Seq::<u8>::empty());
        assert(s1.fs.update(id, InodeView::File(Seq::empty())) =~= s1.fs);
    }
}

/// A directory is made for any last name that is not empty, `.` or `..` and
/// not yet in the existing directory that holds it; the name is then listed
/// there.
pub proof fn lemma_mkdir_succeeds(s: KernelView, path: Seq<char>)
    requires
        kernel_valid(s),
        s.fs.len() <= usize::MAX,
        split_parent_spec(path).1.len() > 0,
        split_parent_spec(path).1 != dot(),
        split_parent_spec(path).1 != dot_dot(),
        resolve(s.fs, s.cwd, split_parent_spec(path).0) matches Ok(d) && s.fs[d as int] is Dir
            && !s.fs[d as int]->Dir_0.dom().contains(split_parent_spec(path).1),
    ensures
        mkdir_model(s, path).1 == Ok::<(), Error>(()),
        ({
            let s1 = mkdir_model(s, path).0;
            let (parent, name) = split_parent_spec(path);
            &&& getdents_model(s1, parent) is Ok
            &&& getdents_model(s1, parent)->Ok_0.dom().contains(name)
        }),
{
    lemma_mkdir_then_listed(s, path);
}

/// An entry is removed for any last name that is not empty, `.` or `..` and
/// is in the existing directory that holds it; the name is then gone.
pub proof fn lemma_unlink_succeeds(s: KernelView, path: Seq<char>)
    requires
        kernel_valid(s),
        split_parent_spec(path).1.len() > 0,
        split_parent_spec(path).1 != dot(),
        split_parent_spec(path).1 != dot_dot(),
        resolve(s.fs, s.cwd, split_parent_spec(path).0) matches Ok(d) && s.fs[d as int] is Dir
            && s.fs[d as int]->Dir_0.dom().contains(split_parent_spec(path).1),
    ensures
        unlink_model(s, path).1 == Ok::<(), Error>(()),
        ({
            let s1 = unlink_model(s, path).0;
            let d = resolve(s.fs, s.cwd, split_parent_spec(path).0)->Ok_0;
            &&& s1.fs[d as int] is Dir
            &&& !s1.fs[d as int]->Dir_0.dom().contains(split_parent_spec(path).1)
        }),
{
    lemma_walk_in_range(s.fs, 0, components(abs_path(s.cwd, split_parent_spec(path).0)));
}

/// `lseek` succeeds exactly on an open descriptor, and then sets its offset
/// to the given one and changes nothing else.
pub proof fn lemma_lseek_sets_offset(s: KernelView, fd: usize, offset: usize)
    ensures
        (lseek_model(s, fd, offset).1 is Ok) == s.fds.dom().contains(fd),
        lseek_model(s, fd, offset).0.fs == s.fs,
        lseek_model(s, fd, offset).0.cwd == s.cwd,
        lseek_model(s, fd, offset).0.fds.dom() == s.fds.dom(),
        s.fds.dom().contains(fd) ==> {
            let h1 = lseek_model(s, fd, offset).0.fds[fd];
            h1.offset == offset && h1.inode == s.fds[fd].inode && h1.options == s.fds[fd].options
        },
{
    if s.fds.dom().contains(fd) {
        assert(lseek_model(s, fd, offset).0.fds.dom() =~= s.fds.dom());
    }
}

/// `ftruncate` on an open regular file gives it exactly `len` bytes: the old
/// bytes below `len` and zeros past the old end. No other inode and no
/// descriptor changes.
pub proof fn lemma_ftruncate_sets_length(s: KernelView, fd: usize, len: usize)
    requires
        kernel_valid(s),
    ensures
        !s.fds.dom().contains(fd) ==> ftruncate_model(s, fd, len) == (s, Err::<(), Error>(Error::BadFd)),
        s.fds.dom().contains(fd) && s.fs[s.fds[fd].inode as int] is Dir ==> ftruncate_model(s, fd, len)
            == (s, Err::<(), Error>(Error::IsDir)),
        s.fds.dom().contains(fd) && s.fs[s.fds[fd].inode as int] is File ==> {
            let ino = s.fds[fd].inode as int;
            let data = s.fs[ino]->File_0;
            let (s1, r) = ftruncate_model(s, fd, len);
            let data1 = s1.fs[ino]->File_0;
            &&& r == Ok::<(), Error>(())
            &&& s1.fds == s.fds && s1.cwd == s.cwd
            &&& s1.fs.len() == s.fs.len()
            &&& s1.fs[ino] is File
            &&& data1.len() == len
            &&& forall|i: int| 0 <= i < len && i < data.len() ==> #[trigger] data1[i] == data[i]
            &&& forall|i: int| data.len() <= i < len ==> #[trigger] data1[i] == 0u8
            &&& forall|j: int| 0 <= j < s.fs.len() && j != ino ==> #[trigger] s1.fs[j] == s.fs[j]
        },
{
    if s.fds.dom().contains(fd) && s.fs[s.fds[fd].inode as int] is File {
        crate::fs::lemma_resize(s.fs[s.fds[fd].inode as int]->File_0, len as int);
    }
}

/// `close` succeeds exactly on an open descriptor, and then forgets it and
/// only it.
pub proof fn lemma_close_forgets_descriptor(s: KernelView, fd: usize)
    ensures
        (close_model(s, fd).1 is Ok) == s.fds.dom().contains(fd),
        !close_model(s, fd).0.fds.dom().contains(fd),
        close_model(s, fd).0.fs == s.fs,
        forall|j: usize| j != fd ==> (#[trigger] close_model(s, fd).0.fds.dom().contains(j)) == s.fds.dom().contains(j),
        forall|j: usize| j != fd && s.fds.dom().contains(j) ==> #[trigger] close_model(s, fd).0.fds[j] == s.fds[j],
{
}

/// `fstat` on an open descriptor reports the kind of its inode and its length:
/// the byte count of a file, the entry count of a directory.
pub proof fn lemma_fstat_reports_inode(s: KernelView, fd: usize)
    ensures
        !s.fds.dom().contains(fd) ==> fstat_model(s, fd) == Err::<Metadata, Error>(Error::BadFd),
        s.fds.dom().contains(fd) ==> (fstat_model(s, fd) matches Ok(m) && match s.fs[s.fds[fd].inode as int] {
            InodeView::File(d) => m.file_type == FileType::File && m.len == d.len() as usize,
            InodeView::Dir(e) => m.file_type == FileType::Dir && m.len == e.dom().len() as usize,
        }),
{
}

/// Opening a path that names an inode, with or without `create`, changes no
/// inode and opens the inode the path names under the smallest free
/// descriptor, at offset 0 with the given access.
pub proof fn lemma_open_existing(s: KernelView, path: Seq<char>, create: bool, options: OpenOptions)
    requires
        has_free_fd(s.fds),
        resolve(s.fs, s.cwd, path) is Ok,
    ensures
        ({
            let (s1, r) = open_model(s, path, create, options);
            &&& r is Ok
            &&& is_first_free(s.fds, r->Ok_0)
            &&& s1.fs == s.fs && s1.cwd == s.cwd
            &&& s1.fds.dom().contains(r->Ok_0)
            &&& s1.fds[r->Ok_0].inode == resolve(s.fs, s.cwd, path)->Ok_0
            &&& s1.fds[r->Ok_0].offset == 0
            &&& s1.fds[r->Ok_0].options == options
            &&& forall|j: usize| #[trigger] s.fds.dom().contains(j) ==> s1.fds.dom().contains(j) && s1.fds[j] == s.fds[j]
        }),
{
    lemma_first_free_exists(s.fds);
}

} // verus!
