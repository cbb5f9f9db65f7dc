//! Paths: names for files, and the creation of files by name.
use vstd::prelude::*;
use vstd::slice::slice_subrange;
use crate::fs::dir::Directory;
use crate::fs::inode::{Inode, InodeData, InodeInner, InodeType};
use crate::fs::table::{Fs, FsState};
use crate::fs::{FsError, ROOTINO};
use crate::param::ROOTDEV;
use crate::sleeplock::SleepLockGuard;

verus! {

/// The separator of path components, `/`.
pub const SLASH: u8 = 47;

/// A path, as the bytes of its name.
#[derive(Debug, Clone, Copy)]
pub struct Path<'a>(pub &'a [u8]);

/// `s` without the slashes at its start.
pub open spec fn trim(s: Seq<u8>) -> Seq<u8>
    decreases s.len(),
{
    if s.len() > 0 && s[0] == SLASH {
        trim(s.skip(1))
    } else {
        s
    }
}

/// The number of bytes before the first slash.
pub open spec fn stem_len(s: Seq<u8>) -> nat
    decreases s.len(),
{
    if s.len() == 0 || s[0] == SLASH {
        0
    } else {
        1 + stem_len(s.skip(1))
    }
}

/// The first component of a path and the rest, without leading slashes.
pub open spec fn next_of(s: Seq<u8>) -> Option<(Seq<u8>, Seq<u8>)> {
    let t = trim(s);
    if t.len() == 0 {
        None
    } else {
        Some((t.take(stem_len(t) as int), trim(t.skip(stem_len(t) as int))))
    }
}

proof fn lemma_trim(s: Seq<u8>)
    ensures
        trim(s).len() <= s.len(),
        trim(s) == s.skip(s.len() - trim(s).len()),
        trim(s).len() > 0 ==> trim(s)[0] != SLASH,
    decreases s.len(),
{
    if s.len() > 0 && s[0] == SLASH {
        lemma_trim(s.skip(1));
        assert(trim(s) =~= s.skip(s.len() - trim(s).len()));
    } else {
        assert(s.skip(0) =~= s);
    }
}

proof fn lemma_stem(s: Seq<u8>)
    ensures
        stem_len(s) <= s.len(),
        forall|i: int| 0 <= i < stem_len(s) ==> s[i] != SLASH,
        stem_len(s) < s.len() ==> s[stem_len(s) as int] == SLASH,
    decreases s.len(),
{
    if s.len() > 0 && s[0] != SLASH {
        lemma_stem(s.skip(1));
        assert forall|i: int| 0 <= i < stem_len(s) implies s[i] != SLASH by {
            if i > 0 {
                assert(s.skip(1)[i - 1] == s[i]);
            }
        }
    }
}

/// A component is what lies between slashes, and the rest of a path is shorter.
pub proof fn lemma_next(s: Seq<u8>)
    ensures
        next_of(s) matches Some((c, rest)) ==> {
            &&& 0 < c.len()
            &&& !c.contains(SLASH)
            &&& c.len() + rest.len() <= s.len()
        },
{
    let t = trim(s);
    lemma_trim(s);
    if t.len() > 0 {
        lemma_stem(t);
        lemma_trim(t.skip(stem_len(t) as int));
        assert(t[0] != SLASH);
        let c = t.take(stem_len(t) as int);
        assert forall|i: int| 0 <= i < c.len() implies c[i] != SLASH by {}
    }
}

impl FsState {
    /// The inode at which a path starts: the root, or `cwd`.
    pub open spec fn path_start(self, path: Seq<u8>, cwd: Inode) -> Option<
        (FsState, Result<Inode, FsError>),
    > {
        if path.len() > 0 && path[0] == SLASH {
            self.get(ROOTDEV, ROOTINO)
        } else {
            match self.add_ref(cwd.id as int) {
                None => None,
                Some(s) => Some((s, Ok(cwd))),
            }
        }
    }

    /// Unlocking and dropping `ino`, then failing with `e`.
    pub open spec fn unlock_put_err<T>(self, ino: Inode, d: InodeData, e: FsError) -> Option<
        (FsState, Result<T, FsError>),
    > {
        match self.unlock_put(ino, d) {
            None => None,
            Some(s) => Some((s, Err(e))),
        }
    }

    /// Walking `path` from the referenced inode `ino`, which was reached by `name`; up to the last
    /// component, or to the one before it if `parent`.
    pub open spec fn walk(self, ino: Inode, path: Seq<u8>, name: Seq<u8>, parent: bool) -> Option<
        (FsState, Result<(Inode, Seq<u8>), FsError>),
    >
        decreases path.len(),
    {
        proof {
            lemma_next(path);
        }
        match next_of(path) {
            None => if parent {
                match self.put(ino) {
                    None => None,
                    Some(s) => Some((s, Err(FsError::Resolve))),
                }
            } else {
                Some((self, Ok((ino, name))))
            },
            Some((component, rest)) => match self.lock(ino) {
                None => None,
                Some((s, d)) => if d.typ != InodeType::Directory {
                    s.unlock_put_err(ino, d, FsError::Resolve)
                } else if parent && rest.len() == 0 {
                    Some((s.unlock(ino, d), Ok((ino, component))))
                } else {
                    match s.dir_lookup(ino, d, component) {
                        None => None,
                        Some((s, d, Err(e))) => s.unlock_put_err(ino, d, e),
                        Some((s, d, Ok(None))) => s.unlock_put_err(ino, d, FsError::Resolve),
                        Some((s, d, Ok(Some((_, next))))) => match s.unlock_put(ino, d) {
                            None => None,
                            Some(s) => s.walk(next, rest, component, parent),
                        },
                    }
                },
            },
        }
    }

    /// Resolving `path` from `cwd`: the inode it names, or the directory in which its last
    /// component is to be found, if `parent`; and the last component.
    pub open spec fn resolve(self, path: Seq<u8>, cwd: Inode, parent: bool) -> Option<
        (FsState, Result<(Inode, Seq<u8>), FsError>),
    > {
        match self.path_start(path, cwd) {
            None => None,
            Some((s, Err(e))) => Some((s, Err(e))),
            Some((s, Ok(ino))) => s.walk(ino, path, seq![], parent),
        }
    }
}

impl<'a> Path<'a> {
    pub fn new(name: &'a [u8]) -> (r: Path<'a>)
        ensures
            r.0@ == name@,
    {
        Path(name)
    }

    /// The bytes of the path.
    pub fn as_bytes(&self) -> (r: &'a [u8])
        ensures
            r@ == self.0@,
    {
        self.0
    }

    /// Whether there is no component.
    pub fn is_empty(&self) -> (r: bool)
        ensures
            r == (self.0@.len() == 0),
    {
        self.0.len() == 0
    }

    /// Whether the path starts at the root.
    pub fn is_absolute(&self) -> (r: bool)
        ensures
            r == (self.0@.len() > 0 && self.0@[0] == SLASH),
    {
        self.0.len() > 0 && self.0[0] == SLASH
    }

    /// The path without the slashes at its start.
    fn trimmed(&self) -> (r: Path<'a>)
        ensures
            r.0@ == trim(self.0@),
    {
        let mut i: usize = 0;
        let n = self.0.len();
        proof {
            assert(self.0@.skip(0) =~= self.0@);
        }
        while i < n && self.0[i] == SLASH
            invariant
                i <= n,
                n == self.0@.len(),
                trim(self.0@) == trim(self.0@.skip(i as int)),
            decreases n - i,
        {
            assert(self.0@.skip(i as int)[0] == self.0@[i as int]);
            assert(self.0@.skip(i as int).skip(1) =~= self.0@.skip(i + 1));
            i += 1;
        }
        proof {
            if i < n {
                assert(self.0@.skip(i as int)[0] == self.0@[i as int]);
            }
            assert(self.0@.subrange(i as int, n as int) =~= self.0@.skip(i as int));
        }
        Path(slice_subrange(self.0, i, n))
    }

    /// Returns (next path component, rest).
    /// The returned path has no leading slashes, so the caller can check to see if the component
    /// is the last one (the path is empty).
    /// If no component to remove, returns None.
    pub fn next_component(&self) -> (r: Option<(&'a [u8], Path<'a>)>)
        ensures
            r is None <==> next_of(self.0@) is None,
            r matches Some((component, rest)) ==> next_of(self.0@) == Some((component@, rest.0@)),
    {
        let s = self.trimmed();
        let n = s.0.len();
        if n == 0 {
            return None;
        }
        let mut i: usize = 0;
        proof {
            assert(s.0@.skip(0) =~= s.0@);
        }
        while i < n && s.0[i] != SLASH
            invariant
                i <= n,
                n == s.0@.len(),
                stem_len(s.0@) == i + stem_len(s.0@.skip(i as int)),
            decreases n - i,
        {
            assert(s.0@.skip(i as int)[0] == s.0@[i as int]);
            assert(s.0@.skip(i as int).skip(1) =~= s.0@.skip(i + 1));
            i += 1;
        }
        proof {
            if i < n {
                assert(s.0@.skip(i as int)[0] == s.0@[i as int]);
            }
            assert(s.0@.subrange(i as int, n as int) =~= s.0@.skip(i as int));
            assert(s.0@.subrange(0, i as int) =~= s.0@.take(i as int));
        }
        let rest = Path(slice_subrange(s.0, i, n));
        Some((slice_subrange(s.0, 0, i), rest.trimmed()))
    }

    fn resolve_inner(&self, fs: &mut Fs, cwd: &Inode, parent: bool) -> (r: Result<
        (Inode, &'a [u8]),
        FsError,
    >)
        requires
            old(fs).wf(),
            old(fs)@.resolve(self.0@, *cwd, parent) is Some,
        ensures
            final(fs).wf(),
            final(fs)@.sb == old(fs)@.sb,
            ({
                let (s, found) = old(fs)@.resolve(self.0@, *cwd, parent)->0;
                &&& final(fs)@ == s
                &&& match found {
                    Ok((ino, name)) => r is Ok && r->Ok_0.0 == ino && r->Ok_0.1@ == name,
                    Err(e) => r == Err::<(Inode, &'a [u8]), FsError>(e),
                }
            }),
    {
        let mut inode = if self.is_absolute() {
            match Inode::get(fs, ROOTDEV, ROOTINO) {
                Ok(inode) => inode,
                Err(e) => {
                    return Err(e);
                },
            }
        } else {
            cwd.dup(fs)
        };
        let ghost want = old(fs)@.resolve(self.0@, *cwd, parent);
        let mut name: &'a [u8] = slice_subrange(self.0, 0, 0);
        let mut path: Path<'a> = Path(self.0);
        proof {
            assert(name@ =~= Seq::<u8>::empty());
        }
        // walk the path, one component at at time
        loop
            invariant
                fs.wf(),
                want is Some,
                want == old(fs)@.resolve(self.0@, *cwd, parent),
                want == fs@.walk(inode, path.0@, name@, parent),
                fs@.sb == old(fs)@.sb,
            decreases path.0@.len(),
        {
            proof {
                lemma_next(path.0@);
            }
            match path.next_component() {
                None => {
                    // we returned early to put the last inode
                    if parent {
                        inode.put(fs);
                        return Err(FsError::Resolve);
                    }
                    return Ok((inode, name));
                },
                Some((component, rest)) => {
                    let mut inner = inode.lock(fs);
                    if inner.data.typ != InodeType::Directory {
                        inode.unlock_put(fs, inner);
                        return Err(FsError::Resolve);
                    }
                    // stop one level early
                    if parent && rest.is_empty() {
                        inode.unlock(fs, inner);
                        return Ok((inode, component));
                    }
                    // get the next inode
                    match Directory::lookup(&inode, fs, &mut inner, component) {
                        Ok(Some((_, next))) => {
                            inode.unlock_put(fs, inner);
                            inode = next;
                        },
                        Ok(None) => {
                            inode.unlock_put(fs, inner);
                            return Err(FsError::Resolve);
                        },
                        Err(e) => {
                            inode.unlock_put(fs, inner);
                            return Err(e);
                        },
                    }
                    name = component;
                    path = rest;
                },
            }
        }
    }

    /// Resolves the full path to an inode.
    pub fn resolve(&self, fs: &mut Fs, cwd: &Inode) -> (r: Result<Inode, FsError>)
        requires
            old(fs).wf(),
            old(fs)@.resolve(self.0@, *cwd, false) is Some,
        ensures
            final(fs).wf(),
            final(fs)@.sb == old(fs)@.sb,
            ({
                let (s, found) = old(fs)@.resolve(self.0@, *cwd, false)->0;
                &&& final(fs)@ == s
                &&& match found {
                    Ok((ino, name)) => r == Ok::<Inode, FsError>(ino),
                    Err(e) => r == Err::<Inode, FsError>(e),
                }
            }),
    {
        match self.resolve_inner(fs, cwd, false) {
            Ok((inode, _)) => Ok(inode),
            Err(e) => Err(e),
        }
    }

    /// Resolves to the parent directory, returning (parent, final_name).
    pub fn resolve_parent(&self, fs: &mut Fs, cwd: &Inode) -> (r: Result<
        (Inode, &'a [u8]),
        FsError,
    >)
        requires
            old(fs).wf(),
            old(fs)@.resolve(self.0@, *cwd, true) is Some,
        ensures
            final(fs).wf(),
            final(fs)@.sb == old(fs)@.sb,
            ({
                let (s, found) = old(fs)@.resolve(self.0@, *cwd, true)->0;
                &&& final(fs)@ == s
                &&& match found {
                    Ok((ino, name)) => r is Ok && r->Ok_0.0 == ino && r->Ok_0.1@ == name,
                    Err(e) => r == Err::<(Inode, &'a [u8]), FsError>(e),
                }
            }),
    {
        self.resolve_inner(fs, cwd, true)
    }
}

/// The entry for the directory itself.
pub open spec fn dot() -> Seq<u8> {
    seq![46u8]
}

/// The entry for the directory above.
pub open spec fn dotdot() -> Seq<u8> {
    seq![46u8, 46u8]
}

impl FsState {
    /// Undoing a creation that failed: the new inode `ino` loses its link and both inodes are
    /// unlocked and dropped.
    #[verifier::opaque]
    pub open spec fn create_fail(self, parent: Inode, pd: InodeData, ino: Inode, d: InodeData) -> Option<
        (FsState, Result<(Inode, InodeData), FsError>),
    > {
        let d = InodeData { nlink: 0, ..d };
        match self.store.update_inode(self.sb, ino.dev, ino.inum, d) {
            None => None,
            Some(s) => match self.with_store(s).unlock_put(ino, d) {
                None => None,
                Some(s) => s.unlock_put_err(parent, pd, FsError::Create),
            },
        }
    }

    /// Giving the new directory `ino` its entries for itself and for its parent.
    #[verifier::opaque]
    pub open spec fn link_dots(self, parent: Inode, ino: Inode, d: InodeData) -> Option<
        (FsState, InodeData, Result<(), FsError>),
    > {
        match self.dir_link(ino, d, dot(), ino.inum as u16) {
            None => None,
            Some((s, d, Err(e))) => Some((s, d, Err(e))),
            Some((s, d, Ok(()))) => s.dir_link(ino, d, dotdot(), parent.inum as u16),
        }
    }

    /// Linking the new inode `ino` as `name` in `parent`. A directory adds a link to its parent.
    #[verifier::opaque]
    pub open spec fn create_link(
        self,
        parent: Inode,
        pd: InodeData,
        name: Seq<u8>,
        ino: Inode,
        d: InodeData,
        typ: InodeType,
    ) -> Option<(FsState, Result<(Inode, InodeData), FsError>)> {
        match self.dir_link(parent, pd, name, ino.inum as u16) {
            None => None,
            Some((s, pd, Err(e))) => s.create_fail(parent, pd, ino, d),
            Some((s, pd, Ok(()))) => if typ == InodeType::Directory && pd.nlink == u16::MAX {
                None
            } else if typ == InodeType::Directory {
                let pd = InodeData { nlink: (pd.nlink + 1) as u16, ..pd };
                match s.store.update_inode(s.sb, parent.dev, parent.inum, pd) {
                    None => None,
                    Some(st) => match s.with_store(st).unlock_put(parent, pd) {
                        None => None,
                        Some(s) => Some((s, Ok((ino, d)))),
                    },
                }
            } else {
                match s.unlock_put(parent, pd) {
                    None => None,
                    Some(s) => Some((s, Ok((ino, d)))),
                }
            },
        }
    }

    /// Creating an inode as `name` in the locked directory `parent`, which has no such entry.
    #[verifier::opaque]
    pub open spec fn create_new(
        self,
        parent: Inode,
        pd: InodeData,
        name: Seq<u8>,
        typ: InodeType,
        major: u16,
        minor: u16,
    ) -> Option<(FsState, Result<(Inode, InodeData), FsError>)> {
        match self.alloc_inode(parent.dev, typ) {
            None => None,
            Some((s, Err(e))) => s.unlock_put_err(parent, pd, e),
            Some((s, Ok(ino))) => match s.lock(ino) {
                None => None,
                Some((s, d)) => {
                    let d = InodeData { major, minor, nlink: 1, ..d };
                    match s.store.update_inode(s.sb, ino.dev, ino.inum, d) {
                        None => None,
                        Some(st) => if typ == InodeType::Directory {
                            match s.with_store(st).link_dots(parent, ino, d) {
                                None => None,
                                Some((s, d, Err(e))) => s.create_fail(parent, pd, ino, d),
                                Some((s, d, Ok(()))) => s.create_link(
                                    parent,
                                    pd,
                                    name,
                                    ino,
                                    d,
                                    typ,
                                ),
                            }
                        } else {
                            s.with_store(st).create_link(parent, pd, name, ino, d, typ)
                        },
                    }
                },
            },
        }
    }

    /// Creating `path`, relative to `cwd`; the inode is locked. Asking for a file that is there is
    /// no error. `None` where a lock or a block that is needed is taken, a count would overflow, or
    /// the transaction has no room.
    pub open spec fn create(
        self,
        path: Seq<u8>,
        cwd: Inode,
        typ: InodeType,
        major: u16,
        minor: u16,
    ) -> Option<(FsState, Result<(Inode, InodeData), FsError>)> {
        match self.resolve(path, cwd, true) {
            None => None,
            Some((s, Err(e))) => Some((s, Err(e))),
            Some((s, Ok((parent, name)))) => match s.lock(parent) {
                None => None,
                Some((s, pd)) => match s.dir_lookup(parent, pd, name) {
                    None => None,
                    Some((s, pd, Ok(Some((_, ino))))) => match s.unlock_put(parent, pd) {
                        None => None,
                        Some(s) => match s.lock(ino) {
                            None => None,
                            Some((s, d)) => if typ == InodeType::File && (d.typ == InodeType::File
                                || d.typ == InodeType::Device) {
                                Some((s, Ok((ino, d))))
                            } else {
                                s.unlock_put_err(ino, d, FsError::Create)
                            },
                        },
                    },
                    Some((s, pd, _)) => s.create_new(parent, pd, name, typ, major, minor),
                },
            },
        }
    }
}

impl Inode {
    /// Creates the file, directory or device `path`, relative to `cwd`. Returns it locked. If
    /// there is one already and a file is asked for, returns that one.
    pub fn create(
        fs: &mut Fs,
        path: &Path,
        cwd: &Inode,
        typ: InodeType,
        major: u16,
        minor: u16,
    ) -> (r: Result<(Inode, SleepLockGuard<InodeInner>), FsError>)
        requires
            old(fs).wf(),
            old(fs)@.create(path.0@, *cwd, typ, major, minor) is Some,
        ensures
            final(fs).wf(),
            final(fs)@.sb == old(fs)@.sb,
            ({
                let (s, made) = old(fs)@.create(path.0@, *cwd, typ, major, minor)->0;
                &&& final(fs)@ == s
                &&& match made {
                    Ok((ino, d)) => r is Ok && r->Ok_0.0 == ino && r->Ok_0.1.data@ == d,
                    Err(e) => r is Err && r->Err_0 == e,
                }
            }),
    {
        let (parent, name) = match path.resolve_parent(fs, cwd) {
            Ok(found) => found,
            Err(e) => {
                return Err(e);
            },
        };
        let mut parent_inner = parent.lock(fs);
        // check if the file already exists
        if let Ok(Some((_, inode))) = Directory::lookup(&parent, fs, &mut parent_inner, name) {
            parent.unlock_put(fs, parent_inner);
            let inode_inner = inode.lock(fs);
            // check type matches
            if typ == InodeType::File && (inode_inner.data.typ == InodeType::File
                || inode_inner.data.typ == InodeType::Device) {
                return Ok((inode, inode_inner));
            }
            // type mismatch
            inode.unlock_put(fs, inode_inner);
            return Err(FsError::Create);
        }
        Inode::create_new(fs, parent, parent_inner, name, typ, major, minor)
    }

    /// Creates an inode as `name` in the locked directory `parent`, which has no such entry.
    fn create_new(
        fs: &mut Fs,
        parent: Inode,
        parent_inner: SleepLockGuard<InodeInner>,
        name: &[u8],
        typ: InodeType,
        major: u16,
        minor: u16,
    ) -> (r: Result<(Inode, SleepLockGuard<InodeInner>), FsError>)
        requires
            old(fs).wf(),
            old(fs)@.create_new(parent, parent_inner.data@, name@, typ, major, minor) is Some,
        ensures
            final(fs).wf(),
            final(fs)@.sb == old(fs)@.sb,
            ({
                let (s, made) = old(fs)@.create_new(
                    parent,
                    parent_inner.data@,
                    name@,
                    typ,
                    major,
                    minor,
                )->0;
                &&& final(fs)@ == s
                &&& match made {
                    Ok((ino, d)) => r is Ok && r->Ok_0.0 == ino && r->Ok_0.1.data@ == d,
                    Err(e) => r is Err && r->Err_0 == e,
                }
            }),
    {
        proof {
            reveal(FsState::create_new);
        }
        let sb = fs.superblock();
        let inode = match Inode::allocate(fs, parent.dev, typ) {
            Ok(inode) => inode,
            Err(e) => {
                parent.unlock_put(fs, parent_inner);
                return Err(e);
            },
        };
        let mut inode_inner = inode.lock(fs);
        inode_inner.data.major = major;
        inode_inner.data.minor = minor;
        inode_inner.data.nlink = 1;
        let ghost s1 = fs@;
        inode.update(&mut fs.store, &sb, &inode_inner);
        proof {
            assert(fs@ =~= s1.with_store(fs.store@));
        }
        // create `.` and `..` entries if it is a directory
        // no inode.nlink += 1 for `.` to avoid cyclic ref count
        if typ == InodeType::Directory {
            let linked = Inode::link_dots(fs, &parent, &inode, &mut inode_inner);
            if linked.is_err() {
                return Inode::create_fail(fs, parent, parent_inner, inode, inode_inner);
            }
        }
        Inode::create_link(fs, parent, parent_inner, name, inode, inode_inner, typ)
    }

    /// Gives the new directory `inode` its entries for itself and for its parent.
    fn link_dots(
        fs: &mut Fs,
        parent: &Inode,
        inode: &Inode,
        inode_inner: &mut SleepLockGuard<InodeInner>,
    ) -> (r: Result<(), FsError>)
        requires
            old(fs).wf(),
            old(fs)@.link_dots(*parent, *inode, old(inode_inner).data@) is Some,
        ensures
            final(fs).wf(),
            final(fs)@.sb == old(fs)@.sb,
            Some((final(fs)@, final(inode_inner).data@, r)) == old(fs)@.link_dots(
                *parent,
                *inode,
                old(inode_inner).data@,
            ),
    {
        proof {
            reveal(FsState::link_dots);
        }
        let dot_name: [u8; 1] = [46u8];
        let dotdot_name: [u8; 2] = [46u8, 46u8];
        proof {
            assert(dot_name@ =~= dot());
            assert(dotdot_name@ =~= dotdot());
        }
        match Directory::link(inode, fs, inode_inner, &dot_name, inode.inum as u16) {
            Ok(()) => Directory::link(inode, fs, inode_inner, &dotdot_name, parent.inum as u16),
            Err(e) => Err(e),
        }
    }

    /// Links the new inode as `name` in `parent`.
    fn create_link(
        fs: &mut Fs,
        parent: Inode,
        mut parent_inner: SleepLockGuard<InodeInner>,
        name: &[u8],
        inode: Inode,
        inode_inner: SleepLockGuard<InodeInner>,
        typ: InodeType,
    ) -> (r: Result<(Inode, SleepLockGuard<InodeInner>), FsError>)
        requires
            old(fs).wf(),
            old(fs)@.create_link(
                parent,
                parent_inner.data@,
                name@,
                inode,
                inode_inner.data@,
                typ,
            ) is Some,
        ensures
            final(fs).wf(),
            final(fs)@.sb == old(fs)@.sb,
            ({
                let (s, made) = old(fs)@.create_link(
                    parent,
                    parent_inner.data@,
                    name@,
                    inode,
                    inode_inner.data@,
                    typ,
                )->0;
                &&& final(fs)@ == s
                &&& match made {
                    Ok((ino, d)) => r is Ok && r->Ok_0.0 == ino && r->Ok_0.1.data@ == d,
                    Err(e) => r is Err && r->Err_0 == e,
                }
            }),
    {
        proof {
            reveal(FsState::create_link);
        }
        let sb = fs.superblock();
        if Directory::link(&parent, fs, &mut parent_inner, name, inode.inum as u16).is_err() {
            return Inode::create_fail(fs, parent, parent_inner, inode, inode_inner);
        }
        if typ == InodeType::Directory {
            // success is now guaranteed
            parent_inner.data.nlink = parent_inner.data.nlink + 1;
            let ghost s1 = fs@;
            parent.update(&mut fs.store, &sb, &parent_inner);
            proof {
                assert(fs@ =~= s1.with_store(fs.store@));
            }
        }
        parent.unlock_put(fs, parent_inner);
        Ok((inode, inode_inner))
    }

    /// Undoes a creation that failed.
    fn create_fail(
        fs: &mut Fs,
        parent: Inode,
        parent_inner: SleepLockGuard<InodeInner>,
        inode: Inode,
        mut inode_inner: SleepLockGuard<InodeInner>,
    ) -> (r: Result<(Inode, SleepLockGuard<InodeInner>), FsError>)
        requires
            old(fs).wf(),
            old(fs)@.create_fail(parent, parent_inner.data@, inode, inode_inner.data@) is Some,
        ensures
            final(fs).wf(),
            final(fs)@.sb == old(fs)@.sb,
            r is Err && r->Err_0 == FsError::Create,
            Some((final(fs)@, Err::<(Inode, InodeData), FsError>(FsError::Create))) == old(
                fs,
            )@.create_fail(parent, parent_inner.data@, inode, inode_inner.data@),
    {
        proof {
            reveal(FsState::create_fail);
        }
        let sb = fs.superblock();
        inode_inner.data.nlink = 0;
        let ghost s1 = fs@;
        inode.update(&mut fs.store, &sb, &inode_inner);
        proof {
            assert(fs@ =~= s1.with_store(fs.store@));
        }
        inode.unlock_put(fs, inode_inner);
        parent.unlock_put(fs, parent_inner);
        Err(FsError::Create)
    }
}

} // verus!
