//! What holds of the names of files.
use vstd::prelude::*;
use crate::fs::inode::{Inode, InodeData, InodeType};
use crate::fs::path::{lemma_next, next_of, stem_len, trim, SLASH};
use crate::fs::table::FsState;
use crate::fs::FsError;
use crate::param::NINODE;

verus! {

/// The last component of a path, empty if there is none.
pub open spec fn last_of(path: Seq<u8>) -> Seq<u8>
    decreases path.len(),
{
    proof {
        lemma_next(path);
    }
    match next_of(path) {
        None => seq![],
        Some((component, rest)) => if rest.len() == 0 {
            component
        } else {
            last_of(rest)
        },
    }
}

/// The inode table is there, and there is a reference to `ino`.
pub open spec fn held(s: FsState, ino: Inode) -> bool {
    &&& s.meta.len() == NINODE
    &&& s.inner.len() == NINODE
    &&& s.locked.len() == NINODE
    &&& ino.id < NINODE
    &&& s.meta[ino.id as int].refs > 0
}

/// From `s` to `t` the references to inodes are the same but for one less to `less`, and one more to
/// `more`.
pub open spec fn moved(s: FsState, t: FsState, less: int, more: Option<int>) -> bool {
    &&& t.meta.len() == s.meta.len()
    &&& t.inner.len() == s.inner.len()
    &&& t.locked.len() == s.locked.len()
    &&& forall|i: int|
        0 <= i < s.meta.len() ==> (#[trigger] t.meta[i]).refs == s.meta[i].refs - (if i == less {
            1int
        } else {
            0
        }) + (if more == Some(i) {
            1int
        } else {
            0
        })
}

/// The state with other data of the inode in place `i` of the table.
pub open spec fn with_inner(s: FsState, i: int, d: InodeData) -> FsState {
    FsState { inner: s.inner.update(i, d), ..s }
}

proof fn lemma_single(c: Seq<u8>)
    requires
        c.len() > 0,
        !c.contains(SLASH),
    ensures
        next_of(c) == Some((c, Seq::<u8>::empty())),
{
    assert(c[0] != SLASH);
    assert(trim(c) == c);
    lemma_whole_stem(c);
    assert(c.take(c.len() as int) =~= c);
    assert(c.skip(c.len() as int) =~= Seq::<u8>::empty());
    assert(trim(Seq::<u8>::empty()) == Seq::<u8>::empty());
}

proof fn lemma_whole_stem(c: Seq<u8>)
    requires
        !c.contains(SLASH),
    ensures
        stem_len(c) == c.len(),
    decreases c.len(),
{
    if c.len() > 0 {
        assert(c[0] != SLASH);
        let r = c.skip(1);
        assert(!r.contains(SLASH)) by {
            if r.contains(SLASH) {
                let i = choose|i: int| 0 <= i < r.len() && r[i] == SLASH;
                assert(c[i + 1] == SLASH);
            }
        }
        lemma_whole_stem(r);
    }
}

/// Taking a reference does not look at the data of an inode that is in use.
proof fn lemma_get_inner(s: FsState, dev: u32, inum: u32, i: int, v: InodeData)
    requires
        0 <= i < NINODE,
        s.meta.len() == NINODE,
        s.inner.len() == NINODE,
        s.meta[i].refs > 0,
    ensures
        with_inner(s, i, v).get(dev, inum) == (match s.get(dev, inum) {
            None => None,
            Some((t, r)) => Some((with_inner(t, i, v), r)),
        }),
{
    reveal(FsState::get);
    let w = with_inner(s, i, v);
    assert forall|j: int| #[trigger] w.active(j, dev, inum) == s.active(j, dev, inum) by {}
    assert forall|j: int| #[trigger] w.hit(j, dev, inum) == s.hit(j, dev, inum) by {
        if w.hit(j, dev, inum) {
            assert forall|m: int| 0 <= m < j implies !#[trigger] s.active(m, dev, inum) by {
                assert(!w.active(m, dev, inum));
            }
        }
        if s.hit(j, dev, inum) {
            assert forall|m: int| 0 <= m < j implies !#[trigger] w.active(m, dev, inum) by {
                assert(!s.active(m, dev, inum));
            }
        }
    }
    assert forall|j: int| #[trigger] w.vacant(j) == s.vacant(j) by {}
    if exists|j: int| s.hit(j, dev, inum) {
        let j = choose|j: int| s.hit(j, dev, inum);
        assert(w.hit(j, dev, inum));
        let k = choose|k: int| w.hit(k, dev, inum);
        assert(s.hit(k, dev, inum) && w.hit(k, dev, inum));
        assert(j == k) by {
            assert(s.active(j, dev, inum) && s.active(k, dev, inum));
        }
    } else {
        assert(!exists|k: int| w.hit(k, dev, inum));
        if exists|j: int| s.vacant(j) {
            let j = choose|j: int| s.vacant(j);
            assert(w.vacant(j));
            let k = choose|k: int| w.vacant(k);
            assert(w.vacant(k) && s.vacant(k));
            assert(j == k) by {
                assert(s.meta[j].refs == 0 && s.meta[k].refs == 0);
            }
            assert(j != i);
            let fresh = InodeData { valid: false, ..s.inner[j] };
            assert(s.inner.update(i, v).update(j, fresh) =~= s.inner.update(j, fresh).update(i, v));
        } else {
            assert(!exists|k: int| w.vacant(k));
        }
    }
}

/// Nor does looking up a name.
proof fn lemma_lookup_inner(s: FsState, ino: Inode, d: InodeData, name: Seq<u8>, i: int, v: InodeData)
    requires
        0 <= i < NINODE,
        s.meta.len() == NINODE,
        s.inner.len() == NINODE,
        s.meta[i].refs > 0,
    ensures
        with_inner(s, i, v).dir_lookup(ino, d, name) == (match s.dir_lookup(ino, d, name) {
            None => None,
            Some((t, e, r)) => Some((with_inner(t, i, v), e, r)),
        }),
{
    reveal(FsState::dir_lookup);
    if let Some((t, e, Ok(Some((offset, inum))))) = s.store.find_entry(
        s.sb,
        ino.dev,
        d,
        name,
        0,
        d.size as int,
    ) {
        lemma_get_inner(s.with_store(t), ino.dev, inum as u32, i, v);
        assert(with_inner(s, i, v).with_store(t) == with_inner(s.with_store(t), i, v));
    } else {
        if let Some((t, e, r)) = s.store.find_entry(s.sb, ino.dev, d, name, 0, d.size as int) {
            assert(with_inner(s, i, v).with_store(t) == with_inner(s.with_store(t), i, v));
        }
    }
}

/// Looking a name up takes a reference to what it finds, and no other.
proof fn lemma_lookup_refs(s: FsState, ino: Inode, d: InodeData, name: Seq<u8>)
    requires
        s.meta.len() == NINODE,
        s.inner.len() == NINODE,
        s.locked.len() == NINODE,
    ensures
        s.dir_lookup(ino, d, name) matches Some((t, e, r)) ==> moved(
            s,
            t,
            -1,
            match r {
                Ok(Some((_, found))) => Some(found.id as int),
                _ => None,
            },
        ) && (r matches Ok(Some((_, found))) ==> held(t, found)) && t.locked == s.locked,
{
    reveal(FsState::dir_lookup);
    reveal(FsState::get);
    if let Some((t, e, Ok(Some((offset, inum))))) = s.store.find_entry(
        s.sb,
        ino.dev,
        d,
        name,
        0,
        d.size as int,
    ) {
        let w = s.with_store(t);
        let n = inum as u32;
        if exists|j: int| w.hit(j, ino.dev, n) {
            let j = choose|j: int| w.hit(j, ino.dev, n);
            assert(w.hit(j, ino.dev, n));
        } else if exists|j: int| w.vacant(j) {
            let j = choose|j: int| w.vacant(j);
            assert(w.vacant(j));
        }
    }
}

/// Dropping a reference drops that one, and no other.
proof fn lemma_put_refs(s: FsState, ino: Inode)
    requires
        s.meta.len() == NINODE,
        s.inner.len() == NINODE,
        s.locked.len() == NINODE,
    ensures
        s.put(ino) matches Some(t) ==> moved(s, t, ino.id as int, None) && ino.id < NINODE,
{
    reveal(FsState::put);
}

/// How walking a path ends for the references that are held: the one to the inode where it starts is
/// dropped, and there is one to the inode where it ends, if it gets there.
proof fn lemma_walk_refs(s: FsState, ino: Inode, path: Seq<u8>, name: Seq<u8>, parent: bool)
    requires
        held(s, ino),
    ensures
        s.walk(ino, path, name, parent) matches Some((t, r)) ==> match r {
            Ok((i, _)) => moved(s, t, ino.id as int, Some(i.id as int)) && held(t, i),
            Err(_) => moved(s, t, ino.id as int, None),
        },
    decreases path.len(),
{
    lemma_next(path);
    match next_of(path) {
        None => {
            lemma_put_refs(s, ino);
        },
        Some((component, rest)) => {
            reveal(FsState::lock);
            if let Some((s1, d)) = s.lock(ino) {
                if d.typ != InodeType::Directory {
                    lemma_put_refs(s1.unlock(ino, d), ino);
                } else if parent && rest.len() == 0 {
                } else {
                    lemma_lookup_refs(s1, ino, d, component);
                    if let Some((s2, d2, r)) = s1.dir_lookup(ino, d, component) {
                        lemma_put_refs(s2.unlock(ino, d2), ino);
                        if let Some(s3) = s2.unlock_put(ino, d2) {
                            if let Ok(Some((_, next))) = r {
                                assert(s2.meta[next.id as int].refs > 0);
                                assert(held(s3, next));
                                lemma_walk_refs(s3, next, rest, component, parent);
                            }
                        }
                    }
                }
            }
        },
    }
}

/// Walking to the end of a path is walking to the directory of its last component, and looking that
/// up.
proof fn lemma_walk_agrees(s: FsState, ino: Inode, path: Seq<u8>, name: Seq<u8>)
    requires
        held(s, ino),
        next_of(path) is Some,
    ensures
        match s.walk(ino, path, name, true) {
            None => s.walk(ino, path, name, false) is None,
            Some((t, Err(e))) => s.walk(ino, path, name, false) == Some(
                (t, Err::<(Inode, Seq<u8>), FsError>(e)),
            ),
            Some((t, Ok((dir, last)))) => {
                &&& last == last_of(path)
                &&& t.lock(dir) matches Some((_, d)) && d.typ == InodeType::Directory
                &&& s.walk(ino, path, name, false) == t.walk(dir, last, seq![], false)
            },
        },
    decreases path.len(),
{
    lemma_next(path);
    let (component, rest) = next_of(path)->0;
    reveal(FsState::lock);
    if let Some((s1, d)) = s.lock(ino) {
        if d.typ == InodeType::Directory {
            lemma_lookup_refs(s1, ino, d, component);
            if rest.len() == 0 {
                assert(rest =~= seq![]);
                lemma_single(component);
                let i = ino.id as int;
                let t = s1.unlock(ino, d);
                let w = with_inner(s1, i, d);
                assert(t.locked.update(i, true) =~= s1.locked);
                assert(t.lock(ino) == Some((w, d)));
                lemma_lookup_inner(s1, ino, d, component, i, d);
                if let Some((s2, d2, r)) = s1.dir_lookup(ino, d, component) {
                    assert(with_inner(s2, i, d).unlock(ino, d2) =~= s2.unlock(ino, d2)) by {
                        assert(s2.inner.update(i, d).update(i, d2) =~= s2.inner.update(i, d2));
                    }
                }
            } else {
                if let Some((s2, d2, Ok(Some((_, next))))) = s1.dir_lookup(ino, d, component) {
                    lemma_put_refs(s2.unlock(ino, d2), ino);
                    if let Some(s3) = s2.unlock_put(ino, d2) {
                        assert(held(s3, next));
                        lemma_rest_goes_on(path);
                        lemma_walk_agrees(s3, next, rest, component);
                    }
                }
            }
        }
    }
}

/// What is left of a path behind a component has a component itself, or is empty.
proof fn lemma_rest_goes_on(path: Seq<u8>)
    ensures
        next_of(path) matches Some((c, rest)) ==> rest.len() > 0 ==> next_of(rest) is Some,
{
    let t = trim(path);
    if t.len() > 0 {
        lemma_trim_twice(t.skip(stem_len(t) as int));
    }
}

proof fn lemma_trim_twice(s: Seq<u8>)
    ensures
        trim(trim(s)) == trim(s),
    decreases s.len(),
{
    if s.len() > 0 && s[0] == SLASH {
        lemma_trim_twice(s.skip(1));
    }
}

/// Resolving a path and resolving its parent agree.
///
/// A path with no component has no parent. Of any other the parent is a directory, together with the
/// last component of the path, and the path is resolved by looking that up there: it is found if and
/// only if the directory has an entry for it. Where the parent cannot be resolved the path cannot
/// either, for the same reason.
pub proof fn law_resolve_agrees(s: FsState, path: Seq<u8>, cwd: Inode)
    requires
        held(s, cwd),
    ensures
        next_of(path) is None ==> match s.resolve(path, cwd, true) {
            Some((_, r)) => r is Err && (s.path_start(path, cwd) matches Some((_, Ok(_))) ==> r
                == Err::<(Inode, Seq<u8>), FsError>(FsError::Resolve)),
            None => true,
        },
        next_of(path) is Some ==> match s.resolve(path, cwd, true) {
            None => s.resolve(path, cwd, false) is None,
            Some((t, Err(e))) => s.resolve(path, cwd, false) == Some(
                (t, Err::<(Inode, Seq<u8>), FsError>(e)),
            ),
            Some((t, Ok((dir, last)))) => {
                &&& last == last_of(path)
                &&& t.lock(dir) matches Some((_, d)) && d.typ == InodeType::Directory
                &&& s.resolve(path, cwd, false) == t.walk(dir, last, seq![], false)
                &&& s.resolve(path, cwd, false) matches Some((_, r)) ==> {
                    let (u, d) = t.lock(dir)->0;
                    let found = (u.dir_lookup(dir, d, last)->0).2;
                    match r {
                        Ok((i, n)) => n == last && (found matches Ok(Some((_, f))) && f == i),
                        Err(e) => found == Err::<Option<(u32, Inode)>, FsError>(e) || (found == Ok::<
                            Option<(u32, Inode)>,
                            FsError,
                        >(None) && e == FsError::Resolve),
                    }
                }
            },
        },
{
    lemma_start(s, path, cwd);
    if let Some((t, Ok(ino))) = s.path_start(path, cwd) {
        if next_of(path) is Some {
            lemma_walk_agrees(t, ino, path, seq![]);
            lemma_last(path);
            if let Some((p, Ok((dir, last)))) = t.walk(ino, path, seq![], true) {
                lemma_single(last);
                let (u, d) = p.lock(dir)->0;
                assert(next_of(last) == Some((last, Seq::<u8>::empty())));
                assert(next_of(Seq::<u8>::empty()) is None);
                if let Some((v, e, Ok(Some((_, next))))) = u.dir_lookup(dir, d, last) {
                    if let Some(x) = v.unlock_put(dir, e) {
                        assert(x.walk(next, Seq::<u8>::empty(), last, false) == Some(
                            (x, Ok::<(Inode, Seq<u8>), FsError>((next, last))),
                        ));
                        assert(p.walk(dir, last, seq![], false) == Some(
                            (x, Ok::<(Inode, Seq<u8>), FsError>((next, last))),
                        ));
                    } else {
                        assert(p.walk(dir, last, seq![], false) is None);
                    }
                }
            }
        }
    }
}

/// The last component of a path is one.
proof fn lemma_last(path: Seq<u8>)
    requires
        next_of(path) is Some,
    ensures
        last_of(path).len() > 0,
        !last_of(path).contains(SLASH),
    decreases path.len(),
{
    lemma_next(path);
    lemma_rest_goes_on(path);
    let (component, rest) = next_of(path)->0;
    if rest.len() > 0 {
        lemma_last(rest);
    }
}

/// Where a path starts there is one more reference.
proof fn lemma_start(s: FsState, path: Seq<u8>, cwd: Inode)
    requires
        held(s, cwd),
    ensures
        s.path_start(path, cwd) matches Some((t, r)) ==> match r {
            Ok(ino) => moved(s, t, -1, Some(ino.id as int)) && held(t, ino),
            Err(_) => moved(s, t, -1, None),
        },
{
    reveal(FsState::get);
    let dev = crate::param::ROOTDEV;
    let inum = crate::fs::ROOTINO;
    if path.len() > 0 && path[0] == SLASH {
        if exists|j: int| s.hit(j, dev, inum) {
            let j = choose|j: int| s.hit(j, dev, inum);
            assert(s.hit(j, dev, inum));
        } else if exists|j: int| s.vacant(j) {
            let j = choose|j: int| s.vacant(j);
            assert(s.vacant(j));
        }
    }
}

/// Resolving a path takes one reference, to the inode that it gives, and none if it fails.
pub proof fn law_resolve_refs(s: FsState, path: Seq<u8>, cwd: Inode, parent: bool)
    requires
        held(s, cwd),
    ensures
        s.resolve(path, cwd, parent) matches Some((t, r)) ==> match r {
            Ok((i, _)) => moved(s, t, -1, Some(i.id as int)) && held(t, i),
            Err(_) => moved(s, t, -1, None),
        },
{
    lemma_start(s, path, cwd);
    if let Some((t, Ok(ino))) = s.path_start(path, cwd) {
        lemma_walk_refs(t, ino, path, seq![], parent);
    }
}

proof fn lemma_trim_slashes(slashes: Seq<u8>, s: Seq<u8>)
    requires
        forall|i: int| 0 <= i < slashes.len() ==> #[trigger] slashes[i] == SLASH,
        s.len() > 0 ==> s[0] != SLASH,
    ensures
        trim(slashes + s) == s,
    decreases slashes.len(),
{
    if slashes.len() > 0 {
        let t = slashes.skip(1);
        assert(slashes[0] == SLASH);
        assert((slashes + s).skip(1) =~= t + s);
        assert forall|i: int| 0 <= i < t.len() implies #[trigger] t[i] == SLASH by {
            assert(t[i] == slashes[i + 1]);
        }
        lemma_trim_slashes(t, s);
    } else {
        assert(slashes + s =~= s);
    }
}

proof fn lemma_stem_of(c: Seq<u8>, rest: Seq<u8>)
    requires
        !c.contains(SLASH),
        rest.len() > 0 ==> rest[0] == SLASH,
    ensures
        stem_len(c + rest) == c.len(),
    decreases c.len(),
{
    if c.len() > 0 {
        assert(c[0] != SLASH) by {
            if c[0] == SLASH {
                assert(c.contains(SLASH));
            }
        }
        assert((c + rest).skip(1) =~= c.skip(1) + rest);
        assert(!c.skip(1).contains(SLASH)) by {
            if c.skip(1).contains(SLASH) {
                let i = c.skip(1).index_of(SLASH);
                assert(c[i + 1] == SLASH);
            }
        }
        lemma_stem_of(c.skip(1), rest);
    } else {
        assert(c + rest =~= rest);
    }
}

/// The components of a path are what lies between slashes, however many there are: the first one of a
/// path is what comes before the next slash, and what follows is the path of the others.
pub proof fn law_components(before: Seq<u8>, c: Seq<u8>, between: Seq<u8>, rest: Seq<u8>)
    requires
        forall|i: int| 0 <= i < before.len() ==> #[trigger] before[i] == SLASH,
        forall|i: int| 0 <= i < between.len() ==> #[trigger] between[i] == SLASH,
        c.len() > 0,
        !c.contains(SLASH),
        rest.len() > 0 ==> rest[0] != SLASH && between.len() > 0,
    ensures
        next_of(before + c + between + rest) == Some((c, rest)),
        next_of(before + between) is None,
{
    let tail = between + rest;
    let path = before + c + between + rest;
    let none: Seq<u8> = seq![];
    assert(path =~= before + (c + tail));
    assert((c + tail)[0] == c[0]);
    assert(c[0] != SLASH) by {
        if c[0] == SLASH {
            assert(c.contains(SLASH));
        }
    }
    lemma_trim_slashes(before, c + tail);
    assert(tail.len() > 0 ==> tail[0] == SLASH);
    lemma_stem_of(c, tail);
    assert((c + tail).take(c.len() as int) =~= c);
    assert((c + tail).skip(c.len() as int) =~= tail);
    lemma_trim_slashes(between, rest);
    let all = before + between;
    assert forall|i: int| 0 <= i < all.len() implies #[trigger] all[i] == SLASH by {
        if i >= before.len() {
            assert(all[i] == between[i - before.len()]);
        } else {
            assert(all[i] == before[i]);
        }
    }
    lemma_trim_slashes(all, none);
    assert(all + none =~= all);
}

/// A path that starts with a slash means the same in every directory; any other starts in the current
/// one.
pub proof fn law_path_start(s: FsState, path: Seq<u8>, cwd: Inode, other: Inode, parent: bool)
    ensures
        path.len() > 0 && path[0] == SLASH ==> s.resolve(path, cwd, parent) == s.resolve(
            path,
            other,
            parent,
        ),
        (path.len() == 0 || path[0] != SLASH) && s.resolve(path, cwd, parent) is Some
            ==> s.add_ref(cwd.id as int) is Some && s.resolve(path, cwd, parent) == (s.add_ref(
            cwd.id as int,
        )->0).walk(cwd, path, seq![], parent),
{
}

} // verus!
