use vstd::prelude::*;
use std::collections::BTreeMap;
use vstd::string::StringExecFns;

use crate::error::Error;
use crate::fs::{FileHandle, FileLike, HandleView};

verus! {

/// `fd` is the smallest descriptor number that `fds` does not use.
pub open spec fn is_first_free(fds: Map<usize, HandleView>, fd: usize) -> bool {
    &&& !fds.dom().contains(fd)
    &&& forall|j: usize| j < fd ==> #[trigger] fds.dom().contains(j)
}

/// The smallest descriptor number that `fds` does not use.
pub open spec fn first_free(fds: Map<usize, HandleView>) -> usize {
    choose|fd: usize| is_first_free(fds, fd)
}

/// There is only one smallest free descriptor.
pub proof fn lemma_first_free_unique(fds: Map<usize, HandleView>, fd: usize)
    requires
        is_first_free(fds, fd),
    ensures
        first_free(fds) == fd,
{
    let other = first_free(fds);
    assert(is_first_free(fds, other));
    if other < fd {
        assert(fds.dom().contains(other));
    } else if other > fd {
        assert(fds.dom().contains(fd));
    }
}

/// Some descriptor number is free.
pub open spec fn has_free_fd(fds: Map<usize, HandleView>) -> bool {
    exists|fd: usize| !#[trigger] fds.dom().contains(fd)
}

proof fn lemma_search_free(fds: Map<usize, HandleView>, j: usize, n: usize) -> (r: usize)
    requires
        j <= n,
        !fds.dom().contains(n),
        forall|i: usize| i < j ==> #[trigger] fds.dom().contains(i),
    ensures
        is_first_free(fds, r),
        r <= n,
    decreases n - j,
{
    if !fds.dom().contains(j) {
        j
    } else {
        lemma_search_free(fds, (j + 1) as usize, n)
    }
}

/// When some descriptor number is free there is a smallest free one.
pub proof fn lemma_first_free_exists(fds: Map<usize, HandleView>)
    requires
        has_free_fd(fds),
    ensures
        is_first_free(fds, first_free(fds)),
{
    let n = choose|fd: usize| !#[trigger] fds.dom().contains(fd);
    let r = lemma_search_free(fds, 0, n);
    lemma_first_free_unique(fds, r);
}

/// A finite set of numbers that holds every number below `n` has at least `n`
/// elements.
proof fn lemma_prefix_len(s: Set<usize>, n: usize)
    requires
        s.finite(),
        forall|j: usize| j < n ==> #[trigger] s.contains(j),
    ensures
        n <= s.len(),
    decreases n,
{
    if n > 0 {
        let m = (n - 1) as usize;
        let t = s.remove(m);
        assert forall|j: usize| j < m implies #[trigger] t.contains(j) by {
            assert(s.contains(j));
        }
        lemma_prefix_len(t, m);
        assert(s.contains(m));
    }
}

/// A finite descriptor map with at most `usize::MAX` descriptors leaves some
/// descriptor number free.
pub proof fn lemma_small_table_has_free(fds: Map<usize, HandleView>)
    requires
        fds.dom().finite(),
        fds.dom().len() <= usize::MAX,
    ensures
        has_free_fd(fds),
{
    let dom = fds.dom();
    if forall|j: usize| #[trigger] dom.contains(j) {
        let m = usize::MAX;
        lemma_prefix_len(dom.remove(m), m);
        assert(dom.remove(m).len() == dom.len() - 1);
    }
    let fd = choose|j: usize| !#[trigger] dom.contains(j);
    assert(!fds.dom().contains(fd));
}

/// The descriptors of a table that maps each open descriptor to its file.
pub open spec fn fd_map(table: Map<usize, FileLike>) -> Map<usize, HandleView> {
    table.map_values(|f: FileLike| f@)
}

broadcast use vstd::std_specs::btree::group_btree_axioms, vstd::laws_cmp::group_laws_cmp;

/// A process: its table of open file descriptors and its working directory.
pub struct Process {
    fd_table: BTreeMap<usize, FileLike>,
    cwd: String,
}

impl Process {
    /// The open descriptors and the handle each refers to.
    pub closed spec fn fds(&self) -> Map<usize, HandleView> {
        fd_map(self.fd_table@)
    }

    /// The working directory.
    pub closed spec fn current_dir(&self) -> Seq<char> {
        self.cwd@
    }

    /// The table holds finitely many descriptors, at most `usize::MAX`, so
    /// some descriptor number is free.
    pub proof fn lemma_free_fd(&self)
        ensures
            self.fds().dom().finite(),
            self.fds().dom().len() <= usize::MAX,
            has_free_fd(self.fds()),
    {
        assert(self.fds().dom() == self.fd_table@.dom());
        assert(self.fd_table@.dom().len() == self.fd_table.len());
        lemma_small_table_has_free(self.fds());
    }

    /// A process with no open descriptor, working in `/`.
    pub fn new() -> (r: Self)
        ensures
            r.fds() == Map::<usize, HandleView>::empty(),
            r.current_dir() == seq!['/'],
    {
        let r = Self { fd_table: BTreeMap::new(), cwd: String::from_str("/") };
        proof {
            reveal_strlit("/");
        }
        assert(r.fds() =~= Map::<usize, HandleView>::empty());
        r
    }

    /// The working directory.
    pub fn cwd(&self) -> (r: &str)
        ensures
            r@ == self.current_dir(),
    {
        self.cwd.as_str()
    }

    /// The smallest descriptor number not in use.
    pub fn alloc_fd(&self) -> (fd: usize)
        ensures
            is_first_free(self.fds(), fd),
    {
        let ghost dom = self.fd_table@.dom();
        proof {
            assert(dom.len() == self.fd_table.len());
        }
        let mut fd: usize = 0;
        while self.fd_table.contains_key(&fd)
            invariant
                dom == self.fd_table@.dom(),
                dom.len() <= usize::MAX,
                fd <= dom.len(),
                forall|j: usize| j < fd ==> #[trigger] dom.contains(j),
            decreases dom.len() - fd,
        {
            proof {
                let rest = dom.remove(fd);
                assert forall|j: usize| j < fd implies #[trigger] rest.contains(j) by {
                    assert(dom.contains(j));
                }
                lemma_prefix_len(rest, fd);
            }
            fd = fd + 1;
        }
        fd
    }

    /// Changes the working directory.
    pub fn set_cwd(&mut self, cwd: String)
        ensures
            final(self).current_dir() == cwd@,
            final(self).fds() == old(self).fds(),
    {
        self.cwd = cwd;
    }

    /// Opens `file` under the smallest free descriptor number and returns it.
    pub fn add_file(&mut self, file: FileLike) -> (fd: usize)
        ensures
            is_first_free(old(self).fds(), fd),
            final(self).fds() == old(self).fds().insert(fd, file@),
            final(self).current_dir() == old(self).current_dir(),
    {
        let fd = self.alloc_fd();
        self.put_file(fd, file);
        fd
    }

    /// Puts `file` back under descriptor `fd`.
    pub fn put_file(&mut self, fd: usize, file: FileLike)
        ensures
            final(self).fds() == old(self).fds().insert(fd, file@),
            final(self).current_dir() == old(self).current_dir(),
    {
        let ghost v = file@;
        self.fd_table.insert(fd, file);
        assert(self.fds() =~= old(self).fds().insert(fd, v));
    }

    /// The file open as `fd`.
    pub fn get_file_like(&self, fd: usize) -> (r: Result<&FileLike, Error>)
        ensures
            self.fds().dom().contains(fd) ==> (r matches Ok(f) && f@ == self.fds()[fd]),
            !self.fds().dom().contains(fd) ==> (r matches Err(e) && e == Error::BadFd),
    {
        match self.fd_table.get(&fd) {
            Some(f) => Ok(f),
            None => Err(Error::BadFd),
        }
    }

    /// Takes the file open as `fd` out of the table, to be changed and put back.
    pub fn take_file(&mut self, fd: usize) -> (r: Result<FileLike, Error>)
        ensures
            old(self).fds().dom().contains(fd) ==> (r matches Ok(f) && f@ == old(self).fds()[fd]
                && final(self).fds() == old(self).fds().remove(fd)),
            !old(self).fds().dom().contains(fd) ==> (r matches Err(e) && e == Error::BadFd
                && final(self).fds() == old(self).fds()),
            final(self).current_dir() == old(self).current_dir(),
    {
        let r = self.fd_table.remove(&fd);
        assert(self.fds() =~= old(self).fds().remove(fd));
        match r {
            Some(f) => Ok(f),
            None => {
                assert(self.fds() =~= old(self).fds());
                Err(Error::BadFd)
            },
        }
    }

    /// The file handle open as `fd`.
    pub fn get_file(&self, fd: usize) -> (r: Result<&FileHandle, Error>)
        ensures
            self.fds().dom().contains(fd) ==> (r matches Ok(f) && f@ == self.fds()[fd]),
            !self.fds().dom().contains(fd) ==> (r matches Err(e) && e == Error::BadFd),
    {
        match self.get_file_like(fd) {
            Ok(f) => Ok(f.as_file()),
            Err(e) => Err(e),
        }
    }

    /// Closes `fd`.
    pub fn close(&mut self, fd: usize) -> (r: Result<(), Error>)
        ensures
            old(self).fds().dom().contains(fd) ==> r == Ok::<(), Error>(()) && final(self).fds() == old(self).fds().remove(fd),
            !old(self).fds().dom().contains(fd) ==> r == Err::<(), Error>(Error::BadFd)
                && final(self).fds() == old(self).fds(),
            final(self).current_dir() == old(self).current_dir(),
    {
        match self.fd_table.remove(&fd) {
            Some(_) => {
                assert(self.fds() =~= old(self).fds().remove(fd));
                Ok(())
            },
            None => {
                assert(self.fds() =~= old(self).fds());
                Err(Error::BadFd)
            },
        }
    }
}

impl Default for Process {
    fn default() -> (r: Self)
        ensures
            r.fds() == Map::<usize, HandleView>::empty(),
            r.current_dir() == seq!['/'],
    {
        Self::new()
    }
}

} // verus!
