use vstd::prelude::*;

use crate::error::Error;

verus! {

/// The two kinds of objects the file system stores.
#[derive(Clone, Copy, Debug, PartialEq, Eq, Structural)]
pub enum FileType {
    File,
    Dir,
}

/// What `fstat` reports: the kind of the object and its length (bytes of a
/// regular file, entries of a directory).
#[derive(Clone, Copy, Debug, PartialEq, Eq, Structural)]
pub struct Metadata {
    pub file_type: FileType,
    pub len: usize,
}

/// Inodes are named by their index in the file system's inode table.
pub type InodeId = usize;

/// The abstract contents of an inode: the bytes of a regular file, or the
/// directory's map from entry name to child inode.
pub enum InodeView {
    File(Seq<u8>),
    Dir(Map<Seq<char>, InodeId>),
}

impl InodeView {
    pub open spec fn file_type(self) -> FileType {
        match self {
            InodeView::File(_) => FileType::File,
            InodeView::Dir(_) => FileType::Dir,
        }
    }

    /// Byte length of a file, number of entries of a directory.
    pub open spec fn size(self) -> nat {
        match self {
            InodeView::File(d) => d.len(),
            InodeView::Dir(m) => m.dom().len(),
        }
    }

    pub open spec fn is_dir(self) -> bool {
        self is Dir
    }

    /// The `Metadata` that describes this inode.
    pub open spec fn metadata(self) -> Metadata {
        Metadata { file_type: self.file_type(), len: self.size() as usize }
    }
}

// ---------------------------------------------------------------------------
// Byte-level behaviour of regular files.
// ---------------------------------------------------------------------------

/// The bytes that a read of at most `n` bytes at `offset` returns from `data`:
/// nothing at or past the end, otherwise the bytes from `offset` up to
/// `offset + n` or the end, whichever comes first.
pub open spec fn file_read(data: Seq<u8>, offset: int, n: int) -> Seq<u8> {
    if offset >= data.len() {
        Seq::empty()
    } else if offset + n <= data.len() {
        data.subrange(offset, offset + n)
    } else {
        data.subrange(offset, data.len() as int)
    }
}

/// The contents of a file after `buf` is written at `offset`: the file grows to
/// cover the write, a gap between the old end and `offset` reads as zeros, and
/// all bytes outside the written range keep their value.
pub open spec fn file_write(data: Seq<u8>, offset: int, buf: Seq<u8>) -> Seq<u8> {
    let n = if offset + buf.len() > data.len() {
        offset + buf.len()
    } else {
        data.len() as int
    };
    Seq::new(
        n as nat,
        |i: int|
            if offset <= i < offset + buf.len() {
                buf[i - offset]
            } else if i < data.len() {
                data[i]
            } else {
                0u8
            },
    )
}

/// The contents of a file resized to `len` bytes: cut short, or extended with zeros.
pub open spec fn file_resize(data: Seq<u8>, len: int) -> Seq<u8> {
    Seq::new(len as nat, |i: int| if i < data.len() { data[i] } else { 0u8 })
}

/// Reading back the range just written gives exactly the bytes written.
pub proof fn lemma_read_after_write(data: Seq<u8>, offset: int, buf: Seq<u8>)
    requires
        0 <= offset,
    ensures
        file_read(file_write(data, offset, buf), offset, buf.len() as int) == buf,
{
    let w = file_write(data, offset, buf);
    if buf.len() > 0 {
        assert(file_read(w, offset, buf.len() as int) =~= buf);
    } else {
        assert(file_read(w, offset, 0) =~= buf);
    }
}

/// A write changes no byte outside the written range, and the file ends at the
/// end of the write or where it ended before, whichever is later.
pub proof fn lemma_write_keeps_other_bytes(data: Seq<u8>, offset: int, buf: Seq<u8>)
    requires
        0 <= offset,
    ensures
        file_write(data, offset, buf).len() == if offset + buf.len() > data.len() {
            offset + buf.len()
        } else {
            data.len() as int
        },
        forall|i: int|
            0 <= i < data.len() && !(offset <= i < offset + buf.len()) ==> #[trigger] file_write(
                data,
                offset,
                buf,
            )[i] == data[i],
        forall|i: int|
            data.len() <= i < offset ==> #[trigger] file_write(data, offset, buf)[i] == 0u8,
{
}

/// After a resize to `len` the file has `len` bytes: the old bytes below `len`
/// and zeros past the old end.
pub proof fn lemma_resize(data: Seq<u8>, len: int)
    requires
        0 <= len,
    ensures
        file_resize(data, len).len() == len,
        forall|i: int| 0 <= i < len && i < data.len() ==> #[trigger] file_resize(data, len)[i] == data[i],
        forall|i: int| data.len() <= i < len ==> #[trigger] file_resize(data, len)[i] == 0u8,
        len <= data.len() ==> file_resize(data, len) == data.subrange(0, len),
{
    if len <= data.len() {
        assert(file_resize(data, len) =~= data.subrange(0, len));
    }
}

/// Reading from the start of a file cut to `len` bytes gives its first bytes.
pub proof fn lemma_read_after_truncate(data: Seq<u8>, len: int, n: int)
    requires
        0 <= len <= data.len(),
        0 <= n,
    ensures
        file_read(file_resize(data, len), 0, n) == data.subrange(0, if n < len { n } else { len }),
{
    lemma_resize(data, len);
    let r = file_resize(data, len);
    if len > 0 {
        assert(file_read(r, 0, n) =~= data.subrange(0, if n < len { n } else { len }));
    } else {
        assert(file_read(r, 0, n) =~= data.subrange(0, 0));
    }
}

// ---------------------------------------------------------------------------
// Directory entries: kept sorted by name, as an ordered map would keep them.
// ---------------------------------------------------------------------------

/// Strict order on names: lexicographic by character code (the order of the
/// UTF-8 bytes of the names).
pub open spec fn name_lt(a: Seq<char>, b: Seq<char>) -> bool
    decreases a.len(),
{
    if a.len() == 0 {
        b.len() > 0
    } else if b.len() == 0 {
        false
    } else if a[0] != b[0] {
        (a[0] as int) < (b[0] as int)
    } else {
        name_lt(a.drop_first(), b.drop_first())
    }
}

/// `names` is strictly increasing, so it holds each name at most once.
pub open spec fn sorted_names(names: Seq<Seq<char>>) -> bool {
    forall|i: int, j: int| 0 <= i < j < names.len() ==> name_lt(#[trigger] names[i], #[trigger] names[j])
}

/// `names` lists the names of `m` in increasing order, each once.
pub open spec fn is_listing(names: Seq<Seq<char>>, m: Map<Seq<char>, InodeId>) -> bool {
    &&& sorted_names(names)
    &&& forall|k: Seq<char>| #[trigger] names.contains(k) <==> m.dom().contains(k)
}

pub proof fn lemma_name_lt_irreflexive(a: Seq<char>)
    ensures
        !name_lt(a, a),
    decreases a.len(),
{
    if a.len() > 0 {
        lemma_name_lt_irreflexive(a.drop_first());
    }
}

pub proof fn lemma_name_lt_transitive(a: Seq<char>, b: Seq<char>, c: Seq<char>)
    requires
        name_lt(a, b),
        name_lt(b, c),
    ensures
        name_lt(a, c),
    decreases a.len(),
{
    if a.len() > 0 && b.len() > 0 && c.len() > 0 {
        if a[0] == b[0] && b[0] == c[0] {
            lemma_name_lt_transitive(a.drop_first(), b.drop_first(), c.drop_first());
        }
    }
}

pub proof fn lemma_name_lt_total(a: Seq<char>, b: Seq<char>)
    requires
        a != b,
    ensures
        name_lt(a, b) || name_lt(b, a),
    decreases a.len(),
{
    if a.len() > 0 && b.len() > 0 && a[0] == b[0] {
        if a.drop_first() == b.drop_first() {
            assert(a =~= seq![a[0]] + a.drop_first());
            assert(b =~= seq![b[0]] + b.drop_first());
        }
        lemma_name_lt_total(a.drop_first(), b.drop_first());
    } else if a.len() == 0 && b.len() == 0 {
        assert(a =~= b);
    } else if a.len() > 0 && b.len() > 0 {
        assert((a[0] as int) != (b[0] as int));
    }
}

pub proof fn lemma_name_lt_asymmetric(a: Seq<char>, b: Seq<char>)
    requires
        name_lt(a, b),
    ensures
        !name_lt(b, a),
        a != b,
{
    lemma_name_lt_irreflexive(a);
    if name_lt(b, a) {
        lemma_name_lt_transitive(a, b, a);
    }
}

/// Comparing two names that agree on their first `i` characters comes down to
/// comparing what follows.
pub proof fn lemma_name_lt_skip(a: Seq<char>, b: Seq<char>, i: int)
    requires
        0 <= i <= a.len(),
        i <= b.len(),
        a.subrange(0, i) == b.subrange(0, i),
    ensures
        name_lt(a, b) == name_lt(a.subrange(i, a.len() as int), b.subrange(i, b.len() as int)),
    decreases i,
{
    if i > 0 {
        assert(a[0] == a.subrange(0, i)[0]);
        assert(b[0] == b.subrange(0, i)[0]);
        assert(a.drop_first().subrange(0, i - 1) =~= a.subrange(0, i).drop_first());
        assert(b.drop_first().subrange(0, i - 1) =~= b.subrange(0, i).drop_first());
        lemma_name_lt_skip(a.drop_first(), b.drop_first(), i - 1);
        assert(a.drop_first().subrange(i - 1, a.len() - 1) =~= a.subrange(i, a.len() as int));
        assert(b.drop_first().subrange(i - 1, b.len() - 1) =~= b.subrange(i, b.len() as int));
    } else {
        assert(a.subrange(0, a.len() as int) =~= a);
        assert(b.subrange(0, b.len() as int) =~= b);
    }
}

/// The entries of a directory, as (name, child) pairs in stored order.
pub open spec fn entry_names(es: Seq<(Seq<char>, InodeId)>) -> Seq<Seq<char>> {
    es.map_values(|e: (Seq<char>, InodeId)| e.0)
}

/// A position of the entry named `k`, if there is one.
pub open spec fn entry_index(es: Seq<(Seq<char>, InodeId)>, k: Seq<char>) -> int {
    choose|i: int| 0 <= i < es.len() && (#[trigger] es[i]).0 == k
}

/// The map from name to child that a sequence of distinct entries describes.
pub open spec fn entries_map(es: Seq<(Seq<char>, InodeId)>) -> Map<Seq<char>, InodeId> {
    Map::new(
        |k: Seq<char>| exists|i: int| 0 <= i < es.len() && (#[trigger] es[i]).0 == k,
        |k: Seq<char>| es[entry_index(es, k)].1,
    )
}

/// Entries stored in strictly increasing order of name.
pub open spec fn sorted_entries(es: Seq<(Seq<char>, InodeId)>) -> bool {
    sorted_names(entry_names(es))
}

pub proof fn lemma_entries_map_index(es: Seq<(Seq<char>, InodeId)>, i: int)
    requires
        sorted_entries(es),
        0 <= i < es.len(),
    ensures
        entries_map(es).dom().contains(es[i].0),
        entries_map(es)[es[i].0] == es[i].1,
{
    let k = es[i].0;
    assert(es[i].0 == k);
    assert(entries_map(es).dom().contains(k));
    let j = entry_index(es, k);
    assert(entries_map(es)[k] == es[j].1);
    if j != i {
        assert(entry_names(es)[i] == es[i].0);
        assert(entry_names(es)[j] == es[j].0);
        if i < j {
            lemma_name_lt_asymmetric(entry_names(es)[i], entry_names(es)[j]);
        } else {
            lemma_name_lt_asymmetric(entry_names(es)[j], entry_names(es)[i]);
        }
    }
}

pub proof fn lemma_entries_map_absent(es: Seq<(Seq<char>, InodeId)>, k: Seq<char>)
    requires
        forall|i: int| 0 <= i < es.len() ==> (#[trigger] es[i]).0 != k,
    ensures
        !entries_map(es).dom().contains(k),
{
}

/// The size of the map is the number of stored entries.
pub proof fn lemma_entries_map_len(es: Seq<(Seq<char>, InodeId)>)
    requires
        sorted_entries(es),
    ensures
        entries_map(es).dom().len() == es.len(),
        entries_map(es).dom() == entry_names(es).to_set(),
{
    let ns = entry_names(es);
    assert forall|k: Seq<char>| entries_map(es).dom().contains(k) <==> ns.to_set().contains(k) by {
        if entries_map(es).dom().contains(k) {
            let i = choose|i: int| 0 <= i < es.len() && (#[trigger] es[i]).0 == k;
            assert(ns[i] == k);
        }
        if ns.to_set().contains(k) {
            assert(ns.contains(k));
            let i = choose|i: int| 0 <= i < ns.len() && ns[i] == k;
            assert(es[i].0 == k);
        }
    }
    assert(entries_map(es).dom() =~= ns.to_set());
    assert(ns.no_duplicates()) by {
        assert forall|i: int, j: int| 0 <= i < ns.len() && 0 <= j < ns.len() && i != j implies ns[i]
            != ns[j] by {
            if i < j {
                lemma_name_lt_asymmetric(ns[i], ns[j]);
            } else {
                lemma_name_lt_asymmetric(ns[j], ns[i]);
            }
        }
    }
    ns.unique_seq_to_set();
}

/// The names of sorted entries list their map.
pub proof fn lemma_entry_names_listing(es: Seq<(Seq<char>, InodeId)>)
    requires
        sorted_entries(es),
    ensures
        is_listing(entry_names(es), entries_map(es)),
{
    let ns = entry_names(es);
    assert forall|k: Seq<char>| #[trigger] ns.contains(k) <==> entries_map(es).dom().contains(k) by {
        if ns.contains(k) {
            let i = choose|i: int| 0 <= i < ns.len() && ns[i] == k;
            assert(es[i].0 == k);
        }
        if entries_map(es).dom().contains(k) {
            let i = choose|i: int| 0 <= i < es.len() && (#[trigger] es[i]).0 == k;
            assert(ns[i] == k);
        }
    }
}

/// Inserting a new name at its sorted place keeps the entries sorted and adds
/// it to the map.
pub proof fn lemma_entries_insert(
    es: Seq<(Seq<char>, InodeId)>,
    p: int,
    k: Seq<char>,
    v: InodeId,
)
    requires
        sorted_entries(es),
        0 <= p <= es.len(),
        forall|j: int| 0 <= j < p ==> name_lt((#[trigger] es[j]).0, k),
        forall|j: int| p <= j < es.len() ==> name_lt(k, (#[trigger] es[j]).0),
    ensures
        sorted_entries(es.insert(p, (k, v))),
        entries_map(es.insert(p, (k, v))) == entries_map(es).insert(k, v),
{
    let es2 = es.insert(p, (k, v));
    let ns = entry_names(es);
    let ns2 = entry_names(es2);
    assert forall|i: int, j: int| 0 <= i < j < ns2.len() implies name_lt(
        #[trigger] ns2[i],
        #[trigger] ns2[j],
    ) by {
        assert(ns2[i] == es2[i].0);
        assert(ns2[j] == es2[j].0);
        if j < p {
            assert(ns[i] == es[i].0 && ns[j] == es[j].0);
        } else if j == p {
        } else if i < p {
            assert(es2[j] == es[j - 1]);
            assert(name_lt(es[i].0, k));
            assert(name_lt(k, es[j - 1].0));
            lemma_name_lt_transitive(es[i].0, k, es[j - 1].0);
        } else if i == p {
            assert(es2[j] == es[j - 1]);
        } else {
            assert(es2[i] == es[i - 1]);
            assert(es2[j] == es[j - 1]);
            assert(ns[i - 1] == es[i - 1].0 && ns[j - 1] == es[j - 1].0);
        }
    }
    assert(sorted_entries(es2));
    let m = entries_map(es).insert(k, v);
    assert forall|key: Seq<char>| #[trigger] entries_map(es2).dom().contains(key) <==> m.dom().contains(key) by {
        if entries_map(es2).dom().contains(key) {
            let i = choose|i: int| 0 <= i < es2.len() && (#[trigger] es2[i]).0 == key;
            if i < p {
                assert(es[i].0 == key);
            } else if i > p {
                assert(es[i - 1].0 == key);
            }
        }
        if m.dom().contains(key) && key != k {
            let i = choose|i: int| 0 <= i < es.len() && (#[trigger] es[i]).0 == key;
            if i < p {
                assert(es2[i].0 == key);
            } else {
                assert(es2[i + 1].0 == key);
            }
        }
        if key == k {
            assert(es2[p].0 == key);
        }
    }
    assert forall|key: Seq<char>| #[trigger] entries_map(es2).dom().contains(key) implies entries_map(
        es2,
    )[key] == m[key] by {
        let i = choose|i: int| 0 <= i < es2.len() && (#[trigger] es2[i]).0 == key;
        lemma_entries_map_index(es2, i);
        if i < p {
            lemma_entries_map_index(es, i);
            assert(name_lt(es[i].0, k));
            lemma_name_lt_asymmetric(es[i].0, k);
        } else if i > p {
            lemma_entries_map_index(es, i - 1);
            lemma_name_lt_asymmetric(k, es[i - 1].0);
        }
    }
    assert(entries_map(es2) =~= m);
}

/// Removing the entry at `p` removes its name from the map and keeps the rest sorted.
pub proof fn lemma_entries_remove(es: Seq<(Seq<char>, InodeId)>, p: int)
    requires
        sorted_entries(es),
        0 <= p < es.len(),
    ensures
        sorted_entries(es.remove(p)),
        entries_map(es.remove(p)) == entries_map(es).remove(es[p].0),
{
    let es2 = es.remove(p);
    let k = es[p].0;
    let ns = entry_names(es);
    let ns2 = entry_names(es2);
    assert forall|i: int, j: int| 0 <= i < j < ns2.len() implies name_lt(
        #[trigger] ns2[i],
        #[trigger] ns2[j],
    ) by {
        let ii = if i < p { i } else { i + 1 };
        let jj = if j < p { j } else { j + 1 };
        assert(es2[i] == es[ii]);
        assert(es2[j] == es[jj]);
        assert(ns[ii] == es[ii].0 && ns[jj] == es[jj].0);
    }
    let m = entries_map(es).remove(k);
    assert forall|key: Seq<char>| #[trigger] entries_map(es2).dom().contains(key) <==> m.dom().contains(key) by {
        if entries_map(es2).dom().contains(key) {
            let i = choose|i: int| 0 <= i < es2.len() && (#[trigger] es2[i]).0 == key;
            let ii = if i < p { i } else { i + 1 };
            assert(es[ii].0 == key);
            assert(ns[ii] == key && ns[p] == k);
            if ii < p {
                lemma_name_lt_asymmetric(ns[ii], ns[p]);
            } else {
                lemma_name_lt_asymmetric(ns[p], ns[ii]);
            }
        }
        if m.dom().contains(key) {
            let i = choose|i: int| 0 <= i < es.len() && (#[trigger] es[i]).0 == key;
            assert(i != p);
            if i < p {
                assert(es2[i].0 == key);
            } else {
                assert(es2[i - 1].0 == key);
            }
        }
    }
    assert forall|key: Seq<char>| #[trigger] entries_map(es2).dom().contains(key) implies entries_map(
        es2,
    )[key] == m[key] by {
        let i = choose|i: int| 0 <= i < es2.len() && (#[trigger] es2[i]).0 == key;
        lemma_entries_map_index(es2, i);
        let ii = if i < p { i } else { i + 1 };
        lemma_entries_map_index(es, ii);
    }
    assert(entries_map(es2) =~= m);
}

/// Two increasing sequences of names that hold the same names are equal.
pub proof fn lemma_sorted_names_unique(a: Seq<Seq<char>>, b: Seq<Seq<char>>)
    requires
        sorted_names(a),
        sorted_names(b),
        forall|k: Seq<char>| #[trigger] a.contains(k) <==> b.contains(k),
    ensures
        a == b,
    decreases a.len(),
{
    if a.len() == 0 {
        if b.len() > 0 {
            assert(b.contains(b[0]));
            assert(a.contains(b[0]));
        }
        assert(a =~= b);
    } else if b.len() == 0 {
        assert(a.contains(a[0]));
        assert(b.contains(a[0]));
    } else {
        assert(a.contains(a[0]));
        assert(b.contains(b[0]));
        assert(b.contains(a[0]));
        assert(a.contains(b[0]));
        let j = choose|j: int| 0 <= j < b.len() && b[j] == a[0];
        let k = choose|k: int| 0 <= k < a.len() && a[k] == b[0];
        if j > 0 {
            assert(name_lt(b[0], b[j]));
            if k == 0 {
                lemma_name_lt_irreflexive(a[0]);
            } else {
                assert(name_lt(a[0], a[k]));
                lemma_name_lt_asymmetric(a[0], a[k]);
            }
        }
        let a1 = a.drop_first();
        let b1 = b.drop_first();
        assert forall|i: int, l: int| 0 <= i < l < a1.len() implies name_lt(#[trigger] a1[i], #[trigger] a1[l]) by {
            assert(a1[i] == a[i + 1] && a1[l] == a[l + 1]);
        }
        assert forall|i: int, l: int| 0 <= i < l < b1.len() implies name_lt(#[trigger] b1[i], #[trigger] b1[l]) by {
            assert(b1[i] == b[i + 1] && b1[l] == b[l + 1]);
        }
        assert forall|x: Seq<char>| #[trigger] a1.contains(x) implies b1.contains(x) by {
            let i = choose|i: int| 0 <= i < a1.len() && a1[i] == x;
            assert(a[i + 1] == x);
            assert(a.contains(x));
            assert(b.contains(x));
            let l = choose|l: int| 0 <= l < b.len() && b[l] == x;
            if l == 0 {
                assert(name_lt(a[0], a[i + 1]));
                lemma_name_lt_irreflexive(x);
            }
            assert(b1[l - 1] == x);
        }
        assert forall|x: Seq<char>| #[trigger] b1.contains(x) implies a1.contains(x) by {
            let i = choose|i: int| 0 <= i < b1.len() && b1[i] == x;
            assert(b[i + 1] == x);
            assert(b.contains(x));
            assert(a.contains(x));
            let l = choose|l: int| 0 <= l < a.len() && a[l] == x;
            if l == 0 {
                assert(name_lt(b[0], b[i + 1]));
                lemma_name_lt_irreflexive(x);
            }
            assert(a1[l - 1] == x);
        }
        lemma_sorted_names_unique(a1, b1);
        assert(a =~= seq![a[0]] + a1);
        assert(b =~= seq![b[0]] + b1);
    }
}

/// A map has one listing: two listings of the same map are equal.
pub proof fn lemma_listing_unique(a: Seq<Seq<char>>, b: Seq<Seq<char>>, m: Map<Seq<char>, InodeId>)
    requires
        is_listing(a, m),
        is_listing(b, m),
    ensures
        a == b,
{
    assert forall|k: Seq<char>| #[trigger] a.contains(k) <==> b.contains(k) by {
        assert(a.contains(k) <==> m.dom().contains(k));
        assert(b.contains(k) <==> m.dom().contains(k));
    }
    lemma_sorted_names_unique(a, b);
}

// ---------------------------------------------------------------------------
// The effect of each changing call on an inode.
// ---------------------------------------------------------------------------

/// A call that may change an inode, with its arguments.
pub enum InodeOp {
    WriteAt(usize, Seq<u8>),
    Resize(usize),
    Create(Seq<char>, InodeId),
    Unlink(Seq<char>),
}

/// The contents of an inode after `op`, whether the call succeeds or fails: a
/// call on the wrong kind of inode, creating a name that exists and unlinking
/// a missing name change nothing.
pub open spec fn inode_step(v: InodeView, op: InodeOp) -> InodeView {
    match v {
        InodeView::File(d) => match op {
            InodeOp::WriteAt(offset, buf) => InodeView::File(file_write(d, offset as int, buf)),
            InodeOp::Resize(len) => InodeView::File(file_resize(d, len as int)),
            _ => v,
        },
        InodeView::Dir(m) => match op {
            InodeOp::Create(name, child) => if m.dom().contains(name) {
                v
            } else {
                InodeView::Dir(m.insert(name, child))
            },
            InodeOp::Unlink(name) => InodeView::Dir(m.remove(name)),
            _ => v,
        },
    }
}

/// The contents of an inode after the calls `ops`, in order.
pub open spec fn inode_run(v: InodeView, ops: Seq<InodeOp>) -> InodeView
    decreases ops.len(),
{
    if ops.len() == 0 {
        v
    } else {
        inode_run(inode_step(v, ops[0]), ops.drop_first())
    }
}

/// An inode keeps its file type over any sequence of calls: a file stays a
/// file and a directory a directory.
pub proof fn lemma_run_keeps_file_type(v: InodeView, ops: Seq<InodeOp>)
    ensures
        inode_run(v, ops).file_type() == v.file_type(),
    decreases ops.len(),
{
    if ops.len() > 0 {
        lemma_run_keeps_file_type(inode_step(v, ops[0]), ops.drop_first());
    }
}

/// Unlinking a name just created gives the directory back as it was: the name
/// is gone again and the listing is the one from before.
pub proof fn lemma_unlink_undoes_create(
    m: Map<Seq<char>, InodeId>,
    name: Seq<char>,
    child: InodeId,
    before: Seq<Seq<char>>,
    after: Seq<Seq<char>>,
)
    requires
        !m.dom().contains(name),
        is_listing(before, m),
    ensures
        inode_step(inode_step(InodeView::Dir(m), InodeOp::Create(name, child)), InodeOp::Unlink(name))
            == InodeView::Dir(m),
        is_listing(after, m) ==> after == before,
{
    assert(m.insert(name, child).remove(name) =~= m);
    if is_listing(after, m) {
        lemma_listing_unique(after, before, m);
    }
}

// ---------------------------------------------------------------------------
// The inode interface.
// ---------------------------------------------------------------------------

/// The operations on a single inode. A directory refers to its children by
/// their inode number; creating a child is done by the file system, which
/// allocates the child and then records it here with `create`.
pub trait Inode: Sized {
    /// The contents of the inode.
    spec fn inode_view(&self) -> InodeView;

    /// The representation invariant of the inode.
    spec fn well_formed(&self) -> bool;

    fn file_type(&self) -> (t: FileType)
        requires
            self.well_formed(),
        ensures
            t == self.inode_view().file_type(),
    ;

    fn metadata(&self) -> (m: Metadata)
        requires
            self.well_formed(),
        ensures
            m == self.inode_view().metadata(),
    {
        let file_type = self.file_type();
        let len = self.len();
        Metadata { file_type, len }
    }

    /// Reads from `offset` into the front of `buf`; returns how many bytes were read.
    fn read_at(&self, offset: usize, buf: &mut [u8]) -> (r: Result<usize, Error>)
        requires
            self.well_formed(),
        ensures
            match self.inode_view() {
                InodeView::File(d) => {
                    let got = file_read(d, offset as int, old(buf)@.len() as int);
                    &&& r == Ok::<usize, Error>(got.len() as usize)
                    &&& final(buf)@ == got + old(buf)@.subrange(got.len() as int, old(buf)@.len() as int)
                },
                InodeView::Dir(_) => r == Err::<usize, Error>(Error::IsDir) && final(buf)@ == old(buf)@,
            },
    ;

    /// Writes all of `buf` at `offset`, growing the file as needed.
    fn write_at(&mut self, offset: usize, buf: &[u8]) -> (r: Result<usize, Error>)
        requires
            old(self).well_formed(),
            old(self).inode_view() is File ==> offset + buf@.len() <= usize::MAX,
        ensures
            final(self).well_formed(),
            final(self).inode_view() == inode_step(old(self).inode_view(), InodeOp::WriteAt(offset, buf@)),
            match old(self).inode_view() {
                InodeView::File(d) => {
                    &&& r == Ok::<usize, Error>(buf@.len() as usize)
                    &&& final(self).inode_view() == InodeView::File(file_write(d, offset as int, buf@))
                },
                InodeView::Dir(_) => r == Err::<usize, Error>(Error::IsDir) && final(self).inode_view()
                    == old(self).inode_view(),
            },
    ;

    /// Byte length of a file, number of entries of a directory.
    fn len(&self) -> (n: usize)
        requires
            self.well_formed(),
        ensures
            n == self.inode_view().size(),
    ;

    /// Sets the length of a file, cutting it short or extending it with zeros.
    fn resize(&mut self, len: usize) -> (r: Result<(), Error>)
        requires
            old(self).well_formed(),
        ensures
            final(self).well_formed(),
            final(self).inode_view() == inode_step(old(self).inode_view(), InodeOp::Resize(len)),
            match old(self).inode_view() {
                InodeView::File(d) => {
                    &&& r == Ok::<(), Error>(())
                    &&& final(self).inode_view() == InodeView::File(file_resize(d, len as int))
                },
                InodeView::Dir(_) => r == Err::<(), Error>(Error::IsDir) && final(self).inode_view()
                    == old(self).inode_view(),
            },
    ;

    /// The child of a directory with the given name.
    fn find(&self, name: &str) -> (r: Result<InodeId, Error>)
        requires
            self.well_formed(),
        ensures
            match self.inode_view() {
                InodeView::Dir(m) => if m.dom().contains(name@) {
                    r == Ok::<InodeId, Error>(m[name@])
                } else {
                    r == Err::<InodeId, Error>(Error::NotFound)
                },
                InodeView::File(_) => r == Err::<InodeId, Error>(Error::NotDir),
            },
    ;

    /// Records the new child `child` under `name` in a directory; returns `child`.
    fn create(&mut self, name: &str, child: InodeId) -> (r: Result<InodeId, Error>)
        requires
            old(self).well_formed(),
        ensures
            final(self).well_formed(),
            final(self).inode_view() == inode_step(old(self).inode_view(), InodeOp::Create(name@, child)),
            match old(self).inode_view() {
                InodeView::Dir(m) => if m.dom().contains(name@) {
                    r == Err::<InodeId, Error>(Error::AlreadyExists) && final(self).inode_view()
                        == old(self).inode_view()
                } else {
                    &&& r == Ok::<InodeId, Error>(child)
                    &&& final(self).inode_view() == InodeView::Dir(m.insert(name@, child))
                },
                InodeView::File(_) => r == Err::<InodeId, Error>(Error::NotDir) && final(self).inode_view()
                    == old(self).inode_view(),
            },
    ;

    /// Removes the entry `name` from a directory.
    fn unlink(&mut self, name: &str) -> (r: Result<(), Error>)
        requires
            old(self).well_formed(),
        ensures
            final(self).well_formed(),
            final(self).inode_view() == inode_step(old(self).inode_view(), InodeOp::Unlink(name@)),
            match old(self).inode_view() {
                InodeView::Dir(m) => if m.dom().contains(name@) {
                    &&& r == Ok::<(), Error>(())
                    &&& final(self).inode_view() == InodeView::Dir(m.remove(name@))
                } else {
                    r == Err::<(), Error>(Error::NotFound) && final(self).inode_view()
                        == old(self).inode_view()
                },
                InodeView::File(_) => r == Err::<(), Error>(Error::NotDir) && final(self).inode_view()
                    == old(self).inode_view(),
            },
    ;

    /// The names in a directory, in increasing order.
    fn list(&self) -> (r: Result<Vec<String>, Error>)
        requires
            self.well_formed(),
        ensures
            match self.inode_view() {
                InodeView::Dir(m) => r matches Ok(names) && is_listing(
                    names@.map_values(|s: String| s@),
                    m,
                ),
                InodeView::File(_) => r matches Err(e) && e == Error::NotDir,
            },
    ;
}

} // verus!
