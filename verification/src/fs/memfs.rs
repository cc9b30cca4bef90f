use vstd::prelude::*;

use crate::error::Error;
use crate::fs::path::chars_of;
use crate::fs::vfs::{
    entries_map, entry_names, file_read, file_resize, file_write, is_listing, lemma_entries_insert,
    lemma_entries_map_absent, lemma_entries_map_index, lemma_entries_map_len, lemma_entries_remove,
    lemma_entry_names_listing, lemma_name_lt_asymmetric, lemma_name_lt_skip, lemma_name_lt_transitive,
    name_lt, sorted_entries, FileType, Inode, InodeId, InodeView, Metadata,
};

verus! {

// ---------------------------------------------------------------------------
// The file-system model: the table of inodes, indexed by inode number.
// ---------------------------------------------------------------------------

/// The inode that a new object of type `ft` starts as: an empty file or an
/// empty directory.
pub open spec fn empty_inode(ft: FileType) -> InodeView {
    match ft {
        FileType::File => InodeView::File(Seq::empty()),
        FileType::Dir => InodeView::Dir(Map::empty()),
    }
}

/// The inode table is usable: the root (inode 0) is a directory, every
/// directory has finitely many entries, and every
/// directory entry names an inode of the table created after the directory
/// (so following entries always leads to higher inode numbers and the
/// directories form a tree, or a forest once entries are unlinked).
pub open spec fn fs_valid(fs: Seq<InodeView>) -> bool {
    &&& fs.len() > 0
    &&& fs[0] is Dir
    &&& forall|i: int| 0 <= i < fs.len() && (#[trigger] fs[i]) is File ==> fs[i]->File_0.len() <= usize::MAX
    &&& forall|i: int| 0 <= i < fs.len() && (#[trigger] fs[i]) is Dir ==> fs[i]->Dir_0.dom().finite()
    &&& forall|i: int, k: Seq<char>|
        0 <= i < fs.len() && fs[i] is Dir && #[trigger] fs[i]->Dir_0.dom().contains(k)
            ==> i < fs[i]->Dir_0[k] < fs.len()
}

/// Creating the entry `name` of type `ft` in directory `dir`: the table after the
/// call, and the result.
pub open spec fn fs_create(fs: Seq<InodeView>, dir: InodeId, name: Seq<char>, ft: FileType) -> (
    Seq<InodeView>,
    Result<InodeId, Error>,
) {
    match fs[dir as int] {
        InodeView::Dir(m) => if m.dom().contains(name) {
            (fs, Err(Error::AlreadyExists))
        } else {
            (
                fs.update(dir as int, InodeView::Dir(m.insert(name, fs.len() as InodeId))).push(
                    empty_inode(ft),
                ),
                Ok(fs.len() as InodeId),
            )
        },
        InodeView::File(_) => (fs, Err(Error::NotDir)),
    }
}

/// Looking up the entry `name` of directory `dir`.
pub open spec fn fs_find(fs: Seq<InodeView>, dir: InodeId, name: Seq<char>) -> Result<InodeId, Error> {
    match fs[dir as int] {
        InodeView::Dir(m) => if m.dom().contains(name) {
            Ok(m[name])
        } else {
            Err(Error::NotFound)
        },
        InodeView::File(_) => Err(Error::NotDir),
    }
}

/// Removing the entry `name` of directory `dir`.
pub open spec fn fs_unlink(fs: Seq<InodeView>, dir: InodeId, name: Seq<char>) -> (
    Seq<InodeView>,
    Result<(), Error>,
) {
    match fs[dir as int] {
        InodeView::Dir(m) => if m.dom().contains(name) {
            (fs.update(dir as int, InodeView::Dir(m.remove(name))), Ok(()))
        } else {
            (fs, Err(Error::NotFound))
        },
        InodeView::File(_) => (fs, Err(Error::NotDir)),
    }
}

/// Writing `buf` at `offset` of inode `ino`.
pub open spec fn fs_write(fs: Seq<InodeView>, ino: InodeId, offset: int, buf: Seq<u8>) -> (
    Seq<InodeView>,
    Result<usize, Error>,
) {
    match fs[ino as int] {
        InodeView::File(d) => (
            fs.update(ino as int, InodeView::File(file_write(d, offset, buf))),
            Ok(buf.len() as usize),
        ),
        InodeView::Dir(_) => (fs, Err(Error::IsDir)),
    }
}

/// Reading at most `n` bytes at `offset` of inode `ino`.
pub open spec fn fs_read(fs: Seq<InodeView>, ino: InodeId, offset: int, n: int) -> Result<
    Seq<u8>,
    Error,
> {
    match fs[ino as int] {
        InodeView::File(d) => Ok(file_read(d, offset, n)),
        InodeView::Dir(_) => Err(Error::IsDir),
    }
}

/// Setting the length of inode `ino`.
pub open spec fn fs_resize(fs: Seq<InodeView>, ino: InodeId, len: int) -> (
    Seq<InodeView>,
    Result<(), Error>,
) {
    match fs[ino as int] {
        InodeView::File(d) => (fs.update(ino as int, InodeView::File(file_resize(d, len))), Ok(())),
        InodeView::Dir(_) => (fs, Err(Error::IsDir)),
    }
}

/// What a write to a file at `offset` needs to fit in memory.
pub open spec fn write_fits(fs: Seq<InodeView>, ino: InodeId, offset: int, n: int) -> bool {
    fs[ino as int] is File ==> offset + n <= usize::MAX
}

/// Reads `n` bytes into the front of a buffer: the buffer afterwards.
pub open spec fn fill_front(buf: Seq<u8>, got: Seq<u8>) -> Seq<u8> {
    got + buf.subrange(got.len() as int, buf.len() as int)
}

/// Creating an entry keeps the table usable; the table only grows and the new
/// inode is in it.
pub proof fn lemma_create_valid(fs: Seq<InodeView>, dir: InodeId, name: Seq<char>, ft: FileType)
    requires
        fs_valid(fs),
        dir < fs.len(),
        fs.len() <= usize::MAX,
    ensures
        fs_valid(fs_create(fs, dir, name, ft).0),
        fs.len() <= fs_create(fs, dir, name, ft).0.len(),
        fs_create(fs, dir, name, ft).1 matches Ok(i) ==> i < fs_create(fs, dir, name, ft).0.len(),
{
    let (fs2, r) = fs_create(fs, dir, name, ft);
    if r is Ok {
        let m = fs[dir as int]->Dir_0;
        assert forall|i: int, k: Seq<char>|
            0 <= i < fs2.len() && fs2[i] is Dir && #[trigger] fs2[i]->Dir_0.dom().contains(k) implies i
            < fs2[i]->Dir_0[k] < fs2.len() by {
            if i < fs.len() && i != dir {
                assert(fs2[i] == fs[i]);
            } else if i == dir && k != name {
                assert(m.dom().contains(k));
            }
        }
        assert forall|i: int| 0 <= i < fs2.len() && (#[trigger] fs2[i]) is File implies fs2[i]->File_0.len()
            <= usize::MAX by {
            if i < fs.len() && i != dir {
                assert(fs2[i] == fs[i]);
            }
        }
    }
}

/// A created entry is found under its name, as a fresh inode of the asked type
/// at the end of the table.
pub proof fn lemma_create_then_find(fs: Seq<InodeView>, dir: InodeId, name: Seq<char>, ft: FileType)
    requires
        dir < fs.len(),
        fs_create(fs, dir, name, ft).1 is Ok,
    ensures
        fs_create(fs, dir, name, ft).1 == Ok::<InodeId, Error>(fs.len() as InodeId),
        fs_find(fs_create(fs, dir, name, ft).0, dir, name) == Ok::<InodeId, Error>(fs.len() as InodeId),
        fs_create(fs, dir, name, ft).0[fs.len() as int] == empty_inode(ft),
        fs_create(fs, dir, name, ft).0.len() == fs.len() + 1,
{
}

/// A successful create makes a new, empty inode of the asked type at the end
/// of the table: a regular file of length 0 or a directory with no entries.
pub proof fn lemma_created_inode_is_empty(fs: Seq<InodeView>, dir: InodeId, name: Seq<char>, ft: FileType)
    requires
        dir < fs.len(),
        fs.len() <= usize::MAX,
    ensures
        fs_create(fs, dir, name, ft).1 matches Ok(i) ==> {
            let fs2 = fs_create(fs, dir, name, ft).0;
            &&& i == fs.len()
            &&& fs2.len() == fs.len() + 1
            &&& fs2[i as int].file_type() == ft
            &&& fs2[i as int].size() == 0
            &&& ft == FileType::File ==> fs2[i as int] == InodeView::File(Seq::empty())
            &&& ft == FileType::Dir ==> fs2[i as int] == InodeView::Dir(Map::empty())
        },
{
    assert(Map::<Seq<char>, InodeId>::empty().dom() =~= Set::<Seq<char>>::empty());
}

/// A successful create adds one entry to the directory, and a successful
/// unlink removes one.
pub proof fn lemma_dir_size_after(fs: Seq<InodeView>, dir: InodeId, name: Seq<char>, ft: FileType)
    requires
        fs_valid(fs),
        dir < fs.len(),
    ensures
        fs_create(fs, dir, name, ft).1 is Ok ==> fs_create(fs, dir, name, ft).0[dir as int].size()
            == fs[dir as int].size() + 1,
        fs_unlink(fs, dir, name).1 is Ok ==> fs_unlink(fs, dir, name).0[dir as int].size() + 1
            == fs[dir as int].size(),
{
    if fs[dir as int] is Dir {
        assert(fs[dir as int]->Dir_0.dom().finite());
    }
}

/// Creating a name that is already in the directory fails and changes nothing.
pub proof fn lemma_create_existing(fs: Seq<InodeView>, dir: InodeId, name: Seq<char>, ft: FileType)
    requires
        dir < fs.len(),
        fs_find(fs, dir, name) is Ok,
    ensures
        fs_create(fs, dir, name, ft) == (fs, Err::<InodeId, Error>(Error::AlreadyExists)),
{
}

/// An entry that was unlinked is no longer found.
pub proof fn lemma_unlink_then_find(fs: Seq<InodeView>, dir: InodeId, name: Seq<char>)
    requires
        dir < fs.len(),
        fs_unlink(fs, dir, name).1 is Ok,
    ensures
        fs_find(fs_unlink(fs, dir, name).0, dir, name) == Err::<InodeId, Error>(Error::NotFound),
{
}

/// Creating an entry keeps every entry that was found before.
pub proof fn lemma_create_keeps_entries(
    fs: Seq<InodeView>,
    dir: InodeId,
    name: Seq<char>,
    ft: FileType,
    i: InodeId,
    k: Seq<char>,
)
    requires
        dir < fs.len(),
        i < fs.len(),
        fs_find(fs, i, k) is Ok,
    ensures
        fs_find(fs_create(fs, dir, name, ft).0, i, k) == fs_find(fs, i, k),
{
    if fs_create(fs, dir, name, ft).1 is Ok && i == dir {
        assert(k != name);
    }
}

// ---------------------------------------------------------------------------
// The in-memory inode.
// ---------------------------------------------------------------------------

struct DirEntry {
    name: String,
    key: Vec<char>,
    ino: InodeId,
}

enum MemInodeInner {
    File { data: Vec<u8> },
    Dir { entries: Vec<DirEntry> },
}

/// An inode held in memory: the bytes of a regular file, or the entries of a
/// directory kept in increasing order of name.
pub struct MemInode {
    inner: MemInodeInner,
}

spec fn entry_seq(entries: Seq<DirEntry>) -> Seq<(Seq<char>, InodeId)> {
    entries.map_values(|e: DirEntry| (e.key@, e.ino))
}

spec fn entries_ok(entries: Seq<DirEntry>) -> bool {
    &&& sorted_entries(entry_seq(entries))
    &&& forall|i: int| 0 <= i < entries.len() ==> (#[trigger] entries[i]).key@ == entries[i].name@
}

enum NameCmp {
    Less,
    Equal,
    Greater,
}

fn compare_names(a: &Vec<char>, b: &Vec<char>) -> (r: NameCmp)
    ensures
        r is Less ==> name_lt(a@, b@),
        r is Equal ==> a@ == b@,
        r is Greater ==> name_lt(b@, a@),
{
    let mut i: usize = 0;
    while i < a.len() && i < b.len()
        invariant
            i <= a@.len(),
            i <= b@.len(),
            a@.subrange(0, i as int) == b@.subrange(0, i as int),
        decreases a@.len() - i,
    {
        let x = a[i];
        let y = b[i];
        if x != y {
            proof {
                lemma_name_lt_skip(a@, b@, i as int);
                lemma_name_lt_skip(b@, a@, i as int);
                assert(a@.subrange(i as int, a@.len() as int)[0] == a@[i as int]);
                assert(b@.subrange(i as int, b@.len() as int)[0] == b@[i as int]);
            }
            if x < y {
                return NameCmp::Less;
            } else {
                return NameCmp::Greater;
            }
        }
        assert(a@.subrange(0, i + 1) =~= a@.subrange(0, i as int).push(a@[i as int]));
        assert(b@.subrange(0, i + 1) =~= b@.subrange(0, i as int).push(b@[i as int]));
        i = i + 1;
    }
    proof {
        lemma_name_lt_skip(a@, b@, i as int);
        lemma_name_lt_skip(b@, a@, i as int);
    }
    if a.len() == b.len() {
        assert(a@ =~= a@.subrange(0, i as int));
        assert(b@ =~= b@.subrange(0, i as int));
        NameCmp::Equal
    } else if i == a.len() {
        NameCmp::Less
    } else {
        NameCmp::Greater
    }
}

/// The position where `key` is, or where it would be inserted.
fn locate(entries: &Vec<DirEntry>, key: &Vec<char>) -> (r: (usize, bool))
    requires
        sorted_entries(entry_seq(entries@)),
    ensures
        r.0 <= entries@.len(),
        forall|j: int| 0 <= j < r.0 ==> name_lt((#[trigger] entry_seq(entries@)[j]).0, key@),
        r.1 ==> r.0 < entries@.len() && entry_seq(entries@)[r.0 as int].0 == key@,
        !r.1 ==> forall|j: int|
            r.0 <= j < entries@.len() ==> name_lt(key@, (#[trigger] entry_seq(entries@)[j]).0),
{
    let ghost es = entry_seq(entries@);
    let mut i: usize = 0;
    while i < entries.len()
        invariant
            i <= entries@.len(),
            es == entry_seq(entries@),
            sorted_entries(es),
            forall|j: int| 0 <= j < i ==> name_lt((#[trigger] es[j]).0, key@),
        decreases entries@.len() - i,
    {
        assert(es[i as int].0 == entries@[i as int].key@);
        match compare_names(&entries[i].key, key) {
            NameCmp::Less => {
                i = i + 1;
            },
            NameCmp::Equal => {
                return (i, true);
            },
            NameCmp::Greater => {
                assert forall|j: int| i <= j < entries@.len() implies name_lt(key@, (#[trigger] es[j]).0) by {
                    if j > i {
                        assert(entry_names(es)[i as int] == es[i as int].0);
                        assert(entry_names(es)[j] == es[j].0);
                        lemma_name_lt_transitive(key@, es[i as int].0, es[j].0);
                    }
                }
                return (i, false);
            },
        }
    }
    (i, false)
}

proof fn lemma_located_absent(es: Seq<(Seq<char>, InodeId)>, p: int, key: Seq<char>)
    requires
        0 <= p <= es.len(),
        forall|j: int| 0 <= j < p ==> name_lt((#[trigger] es[j]).0, key),
        forall|j: int| p <= j < es.len() ==> name_lt(key, (#[trigger] es[j]).0),
    ensures
        !entries_map(es).dom().contains(key),
{
    assert forall|j: int| 0 <= j < es.len() implies (#[trigger] es[j]).0 != key by {
        if j < p {
            lemma_name_lt_asymmetric(es[j].0, key);
        } else {
            lemma_name_lt_asymmetric(key, es[j].0);
        }
    }
    lemma_entries_map_absent(es, key);
}

/// Extends `data` with zeros up to `len` bytes.
fn zero_extend(data: &mut Vec<u8>, len: usize)
    requires
        old(data)@.len() <= len,
    ensures
        final(data)@ == file_resize(old(data)@, len as int),
{
    while data.len() < len
        invariant
            old(data)@.len() <= data@.len() <= len,
            forall|i: int| 0 <= i < data@.len() ==> data@[i] == file_resize(old(data)@, len as int)[i],
        decreases len - data@.len(),
    {
        data.push(0);
    }
    assert(data@ =~= file_resize(old(data)@, len as int));
}

fn set_len(data: &mut Vec<u8>, len: usize)
    ensures
        final(data)@ == file_resize(old(data)@, len as int),
{
    if len <= data.len() {
        data.truncate(len);
        assert(data@ =~= file_resize(old(data)@, len as int));
    } else {
        zero_extend(data, len);
    }
}

fn write_bytes(data: &mut Vec<u8>, offset: usize, buf: &[u8])
    requires
        offset + buf@.len() <= usize::MAX,
    ensures
        final(data)@ == file_write(old(data)@, offset as int, buf@),
{
    let end = offset + buf.len();
    if end > data.len() {
        zero_extend(data, end);
    }
    let ghost target = file_write(old(data)@, offset as int, buf@);
    let mut k: usize = 0;
    while k < buf.len()
        invariant
            k <= buf@.len(),
            offset + buf@.len() <= data@.len(),
            offset + buf@.len() <= usize::MAX,
            data@.len() == target.len(),
            target == file_write(old(data)@, offset as int, buf@),
            forall|i: int|
                0 <= i < data@.len() && !(offset <= i < offset + k) ==> data@[i] == (if i
                    < old(data)@.len() {
                    old(data)@[i]
                } else {
                    0u8
                }),
            forall|i: int| offset <= i < offset + k ==> data@[i] == buf@[i - offset],
        decreases buf@.len() - k,
    {
        data.set(offset + k, buf[k]);
        k = k + 1;
    }
    assert(data@ =~= target);
}

fn read_bytes(data: &Vec<u8>, offset: usize, buf: &mut [u8]) -> (n: usize)
    ensures
        n == file_read(data@, offset as int, old(buf)@.len() as int).len(),
        final(buf)@ == fill_front(old(buf)@, file_read(data@, offset as int, old(buf)@.len() as int)),
{
    let ghost got = file_read(data@, offset as int, old(buf)@.len() as int);
    if offset >= data.len() {
        assert(fill_front(old(buf)@, got) =~= old(buf)@);
        return 0;
    }
    let avail = data.len() - offset;
    let n = if buf.len() < avail {
        buf.len()
    } else {
        avail
    };
    let mut k: usize = 0;
    while k < n
        invariant
            k <= n,
            n <= buf@.len(),
            offset + n <= data@.len(),
            offset + n <= usize::MAX,
            buf@.len() == old(buf)@.len(),
            forall|j: int| 0 <= j < k ==> buf@[j] == data@[offset + j],
            forall|j: int| k <= j < buf@.len() ==> buf@[j] == old(buf)@[j],
        decreases n - k,
    {
        buf[k] = data[offset + k];
        k = k + 1;
    }
    assert(got.len() == n);
    assert(buf@ =~= fill_front(old(buf)@, got));
    n
}

impl MemInode {
    /// An empty regular file.
    pub fn new_file() -> (r: Self)
        ensures
            r.well_formed(),
            r.inode_view() == InodeView::File(Seq::empty()),
    {
        Self { inner: MemInodeInner::File { data: Vec::new() } }
    }

    /// An empty directory.
    pub fn new_dir() -> (r: Self)
        ensures
            r.well_formed(),
            r.inode_view() == InodeView::Dir(Map::empty()),
    {
        let r = Self { inner: MemInodeInner::Dir { entries: Vec::new() } };
        assert(entries_map(entry_seq(Seq::<DirEntry>::empty())) =~= Map::empty());
        r
    }
}

impl Inode for MemInode {
    closed spec fn inode_view(&self) -> InodeView {
        match &self.inner {
            MemInodeInner::File { data } => InodeView::File(data@),
            MemInodeInner::Dir { entries } => InodeView::Dir(entries_map(entry_seq(entries@))),
        }
    }

    closed spec fn well_formed(&self) -> bool {
        match &self.inner {
            MemInodeInner::File { .. } => true,
            MemInodeInner::Dir { entries } => entries_ok(entries@),
        }
    }

    fn file_type(&self) -> (t: FileType) {
        match &self.inner {
            MemInodeInner::File { .. } => FileType::File,
            MemInodeInner::Dir { .. } => FileType::Dir,
        }
    }

    fn read_at(&self, offset: usize, buf: &mut [u8]) -> (r: Result<usize, Error>) {
        match &self.inner {
            MemInodeInner::File { data } => Ok(read_bytes(data, offset, buf)),
            MemInodeInner::Dir { .. } => Err(Error::IsDir),
        }
    }

    fn write_at(&mut self, offset: usize, buf: &[u8]) -> (r: Result<usize, Error>) {
        match &mut self.inner {
            MemInodeInner::File { data } => {
                write_bytes(data, offset, buf);
                Ok(buf.len())
            },
            MemInodeInner::Dir { .. } => Err(Error::IsDir),
        }
    }

    fn len(&self) -> (n: usize) {
        match &self.inner {
            MemInodeInner::File { data } => data.len(),
            MemInodeInner::Dir { entries } => {
                proof {
                    lemma_entries_map_len(entry_seq(entries@));
                }
                entries.len()
            },
        }
    }

    fn resize(&mut self, len: usize) -> (r: Result<(), Error>) {
        match &mut self.inner {
            MemInodeInner::File { data } => {
                set_len(data, len);
                Ok(())
            },
            MemInodeInner::Dir { .. } => Err(Error::IsDir),
        }
    }

    fn find(&self, name: &str) -> (r: Result<InodeId, Error>) {
        match &self.inner {
            MemInodeInner::Dir { entries } => {
                let key = chars_of(name);
                let (i, found) = locate(entries, &key);
                let ghost es = entry_seq(entries@);
                if found {
                    proof {
                        lemma_entries_map_index(es, i as int);
                    }
                    Ok(entries[i].ino)
                } else {
                    proof {
                        lemma_located_absent(es, i as int, key@);
                    }
                    Err(Error::NotFound)
                }
            },
            MemInodeInner::File { .. } => Err(Error::NotDir),
        }
    }

    fn create(&mut self, name: &str, child: InodeId) -> (r: Result<InodeId, Error>) {
        match &mut self.inner {
            MemInodeInner::Dir { entries } => {
                let key = chars_of(name);
                let (i, found) = locate(entries, &key);
                let ghost es = entry_seq(entries@);
                if found {
                    proof {
                        lemma_entries_map_index(es, i as int);
                    }
                    Err(Error::AlreadyExists)
                } else {
                    proof {
                        lemma_located_absent(es, i as int, key@);
                        lemma_entries_insert(es, i as int, key@, child);
                    }
                    let owned = name.to_owned();
                    let ghost old_entries = entries@;
                    entries.insert(i, DirEntry { name: owned, key, ino: child });
                    assert(entry_seq(entries@) =~= es.insert(i as int, (key@, child)));
                    assert forall|j: int| 0 <= j < entries@.len() implies (
                    #[trigger] entries@[j]).key@ == entries@[j].name@ by {
                        if j < i {
                            assert(entries@[j] == old_entries[j]);
                        } else if j > i {
                            assert(entries@[j] == old_entries[j - 1]);
                        }
                    }
                    Ok(child)
                }
            },
            MemInodeInner::File { .. } => Err(Error::NotDir),
        }
    }

    fn unlink(&mut self, name: &str) -> (r: Result<(), Error>) {
        match &mut self.inner {
            MemInodeInner::Dir { entries } => {
                let key = chars_of(name);
                let (i, found) = locate(entries, &key);
                let ghost es = entry_seq(entries@);
                if found {
                    proof {
                        lemma_entries_remove(es, i as int);
                    }
                    let ghost old_entries = entries@;
                    entries.remove(i);
                    assert(entry_seq(entries@) =~= es.remove(i as int));
                    assert forall|j: int| 0 <= j < entries@.len() implies (
                    #[trigger] entries@[j]).key@ == entries@[j].name@ by {
                        if j < i {
                            assert(entries@[j] == old_entries[j]);
                        } else {
                            assert(entries@[j] == old_entries[j + 1]);
                        }
                    }
                    Ok(())
                } else {
                    proof {
                        lemma_located_absent(es, i as int, key@);
                        assert(entries_map(es).remove(name@) =~= entries_map(es));
                    }
                    Err(Error::NotFound)
                }
            },
            MemInodeInner::File { .. } => Err(Error::NotDir),
        }
    }

    fn list(&self) -> (r: Result<Vec<String>, Error>) {
        match &self.inner {
            MemInodeInner::Dir { entries } => {
                let ghost es = entry_seq(entries@);
                let mut names: Vec<String> = Vec::new();
                let mut i: usize = 0;
                while i < entries.len()
                    invariant
                        i <= entries@.len(),
                        es == entry_seq(entries@),
                        entries_ok(entries@),
                        names@.len() == i,
                        forall|j: int| 0 <= j < i ==> (#[trigger] names@[j])@ == es[j].0,
                    decreases entries@.len() - i,
                {
                    names.push(entries[i].name.clone());
                    assert(entries@[i as int].key@ == entries@[i as int].name@);
                    i = i + 1;
                }
                proof {
                    lemma_entry_names_listing(es);
                    assert(names@.map_values(|s: String| s@) =~= entry_names(es));
                }
                Ok(names)
            },
            MemInodeInner::File { .. } => Err(Error::NotDir),
        }
    }
}


// ---------------------------------------------------------------------------
// The file system: a table of inodes; inode 0 is the root directory.
// ---------------------------------------------------------------------------

/// An in-memory file system. Inodes live in a table and are named by their
/// index; an inode that is unlinked stays in the table, so that descriptors
/// opened on it keep working.
pub struct MemFS {
    inodes: Vec<MemInode>,
}

impl View for MemFS {
    type V = Seq<InodeView>;

    closed spec fn view(&self) -> Seq<InodeView> {
        self.inodes@.map_values(|n: MemInode| n.inode_view())
    }
}

impl MemFS {
    /// The representation invariant: every inode is well formed and the table
    /// is usable (`fs_valid`).
    pub closed spec fn well_formed(&self) -> bool {
        &&& fs_valid(self@)
        &&& forall|i: int| 0 <= i < self.inodes@.len() ==> (#[trigger] self.inodes@[i]).well_formed()
    }

    pub proof fn lemma_valid(&self)
        requires
            self.well_formed(),
        ensures
            fs_valid(self@),
            self@.len() <= usize::MAX,
    {
        assert(self.inodes@.len() == self.inodes.len());
    }

    /// A file system that holds only an empty root directory.
    pub fn new() -> (r: Self)
        ensures
            r.well_formed(),
            r@ == seq![InodeView::Dir(Map::empty())],
    {
        let mut inodes: Vec<MemInode> = Vec::new();
        inodes.push(MemInode::new_dir());
        let r = Self { inodes };
        assert(r@ =~= seq![InodeView::Dir(Map::empty())]);
        r
    }

    /// The inode number of the root directory.
    pub fn root_inode(&self) -> (r: InodeId)
        ensures
            r == 0,
    {
        0
    }

    pub fn file_type(&self, ino: InodeId) -> (t: FileType)
        requires
            self.well_formed(),
            ino < self@.len(),
        ensures
            t == self@[ino as int].file_type(),
    {
        self.inodes[ino].file_type()
    }

    pub fn len(&self, ino: InodeId) -> (n: usize)
        requires
            self.well_formed(),
            ino < self@.len(),
        ensures
            n == self@[ino as int].size(),
    {
        self.inodes[ino].len()
    }

    pub fn metadata(&self, ino: InodeId) -> (m: Metadata)
        requires
            self.well_formed(),
            ino < self@.len(),
        ensures
            m == self@[ino as int].metadata(),
    {
        self.inodes[ino].metadata()
    }

    pub fn read_at(&self, ino: InodeId, offset: usize, buf: &mut [u8]) -> (r: Result<usize, Error>)
        requires
            self.well_formed(),
            ino < self@.len(),
        ensures
            match fs_read(self@, ino, offset as int, old(buf)@.len() as int) {
                Ok(got) => r == Ok::<usize, Error>(got.len() as usize) && final(buf)@ == fill_front(
                    old(buf)@,
                    got,
                ),
                Err(e) => r == Err::<usize, Error>(e) && final(buf)@ == old(buf)@,
            },
    {
        self.inodes[ino].read_at(offset, buf)
    }

    pub fn write_at(&mut self, ino: InodeId, offset: usize, buf: &[u8]) -> (r: Result<usize, Error>)
        requires
            old(self).well_formed(),
            ino < old(self)@.len(),
            write_fits(old(self)@, ino, offset as int, buf@.len() as int),
        ensures
            final(self).well_formed(),
            (final(self)@, r) == fs_write(old(self)@, ino, offset as int, buf@),
            old(self)@.len() <= final(self)@.len(),
    {
        let r = self.inodes[ino].write_at(offset, buf);
        assert(self@ =~= fs_write(old(self)@, ino, offset as int, buf@).0);
        r
    }

    pub fn resize(&mut self, ino: InodeId, len: usize) -> (r: Result<(), Error>)
        requires
            old(self).well_formed(),
            ino < old(self)@.len(),
        ensures
            final(self).well_formed(),
            (final(self)@, r) == fs_resize(old(self)@, ino, len as int),
            old(self)@.len() <= final(self)@.len(),
    {
        let r = self.inodes[ino].resize(len);
        assert(self@ =~= fs_resize(old(self)@, ino, len as int).0);
        r
    }

    pub fn find(&self, dir: InodeId, name: &str) -> (r: Result<InodeId, Error>)
        requires
            self.well_formed(),
            dir < self@.len(),
        ensures
            r == fs_find(self@, dir, name@),
            r matches Ok(c) ==> c < self@.len(),
    {
        self.inodes[dir].find(name)
    }

    pub fn create(&mut self, dir: InodeId, name: &str, file_type: FileType) -> (r: Result<InodeId, Error>)
        requires
            old(self).well_formed(),
            dir < old(self)@.len(),
        ensures
            final(self).well_formed(),
            (final(self)@, r) == fs_create(old(self)@, dir, name@, file_type),
            old(self)@.len() <= final(self)@.len(),
            r matches Ok(i) ==> i < final(self)@.len(),
    {
        let id = self.inodes.len();
        let r = self.inodes[dir].create(name, id);
        match r {
            Ok(_) => {
                let node = match file_type {
                    FileType::File => MemInode::new_file(),
                    FileType::Dir => MemInode::new_dir(),
                };
                self.inodes.push(node);
                assert(self@ =~= fs_create(old(self)@, dir, name@, file_type).0);
                Ok(id)
            },
            Err(e) => {
                assert(self@ =~= old(self)@);
                Err(e)
            },
        }
    }

    pub fn unlink(&mut self, dir: InodeId, name: &str) -> (r: Result<(), Error>)
        requires
            old(self).well_formed(),
            dir < old(self)@.len(),
        ensures
            final(self).well_formed(),
            (final(self)@, r) == fs_unlink(old(self)@, dir, name@),
            old(self)@.len() <= final(self)@.len(),
    {
        let r = self.inodes[dir].unlink(name);
        assert(self@ =~= fs_unlink(old(self)@, dir, name@).0);
        r
    }

    pub fn list(&self, dir: InodeId) -> (r: Result<Vec<String>, Error>)
        requires
            self.well_formed(),
            dir < self@.len(),
        ensures
            match self@[dir as int] {
                InodeView::Dir(m) => r matches Ok(names) && is_listing(
                    names@.map_values(|s: String| s@),
                    m,
                ),
                InodeView::File(_) => r matches Err(e) && e == Error::NotDir,
            },
    {
        self.inodes[dir].list()
    }
}

impl Default for MemFS {
    fn default() -> (r: Self)
        ensures
            r.well_formed(),
            r@ == seq![InodeView::Dir(Map::empty())],
    {
        Self::new()
    }
}

} // verus!
