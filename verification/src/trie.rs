//! The hierarchical store: a tree of directories and files, addressed by
//! slash-delimited paths. A directory owns its children exclusively, keyed
//! by a single path segment each; the meaning of a tree is which entry (a
//! directory, or a file with its bytes) stands at each segment path, given
//! by [`FsLike::entry_at`].

use vstd::prelude::*;
use crate::errors::FsError;
use crate::paths::{begins_with, segments};
use crate::paths::lemma_begins_with_step;
use crate::paths::split_path;

verus! {

/// A node of the store: a directory with named children, or a file with its
/// bytes. Child names hold a single path segment, never a full path, and
/// are unique among their siblings (see [`FsLike::wf`]).
#[derive(Debug)]
pub enum FsLike {
    DirectoryLike { children: Vec<(String, FsLike)> },
    FileLike { data: Vec<u8> },
}

/// What stands at a path: a directory, or a file with the given bytes.
pub enum Entry {
    Dir,
    File(Seq<u8>),
}

impl FsLike {
    /// The first child with the given name, if any.
    pub open spec fn child_lookup(children: Seq<(String, FsLike)>, name: Seq<char>) -> Option<
        FsLike,
    >
        decreases children.len(),
    {
        if children.len() == 0 {
            None
        } else if children[0].0@ == name {
            Some(children[0].1)
        } else {
            Self::child_lookup(children.drop_first(), name)
        }
    }

    /// The node a segment path resolves to, segment by segment; the empty
    /// path resolves to the node itself.
    pub open spec fn node_at(self, path: Seq<Seq<char>>) -> Option<FsLike>
        decreases path.len(),
    {
        if path.len() == 0 {
            Some(self)
        } else {
            match self {
                FsLike::FileLike { .. } => None,
                FsLike::DirectoryLike { children } => match Self::child_lookup(
                    children@,
                    path[0],
                ) {
                    None => None,
                    Some(child) => child.node_at(path.drop_first()),
                },
            }
        }
    }

    /// What this node is, seen as an entry.
    pub open spec fn entry(self) -> Entry {
        match self {
            FsLike::DirectoryLike { .. } => Entry::Dir,
            FsLike::FileLike { data } => Entry::File(data@),
        }
    }

    /// The entry a segment path resolves to.
    pub open spec fn entry_at(self, path: Seq<Seq<char>>) -> Option<Entry> {
        match self.node_at(path) {
            None => None,
            Some(n) => Some(n.entry()),
        }
    }

    /// Unique names: no two children of one directory share a name.
    pub open spec fn unique_names(children: Seq<(String, FsLike)>) -> bool {
        forall|i: int, j: int|
            0 <= i < j < children.len() ==> children[i].0@ != children[j].0@
    }

    /// Every child's subtree is well-formed.
    pub open spec fn all_wf(children: Seq<(String, FsLike)>) -> bool
        decreases children,
    {
        if children.len() == 0 {
            true
        } else {
            children[0].1.wf() && Self::all_wf(children.drop_first())
        }
    }

    /// Well-formed: in every directory of the tree, child names are unique
    /// among their siblings.
    pub open spec fn wf(self) -> bool
        decreases self,
    {
        match self {
            FsLike::FileLike { .. } => true,
            FsLike::DirectoryLike { children } => Self::unique_names(children@) && Self::all_wf(
                children@,
            ),
        }
    }

    /// An empty directory, the shape of a fresh store's root.
    pub fn new() -> (r: Self)
        ensures
            r.wf(),
            r is DirectoryLike,
            forall|p: Seq<Seq<char>>| #[trigger]
                r.entry_at(p) == (if p.len() == 0 {
                    Some(Entry::Dir)
                } else {
                    None::<Entry>
                }),
    {
        let r = FsLike::DirectoryLike { children: Vec::new() };
        proof {
            assert forall|p: Seq<Seq<char>>| p.len() != 0 implies #[trigger] r.entry_at(p)
                is None by {
            }
        }
        r
    }

    /// The children of a directory node, or `None` for a file.
    pub fn children(&self) -> (r: Option<&Vec<(String, FsLike)>>)
        ensures
            match r {
                Some(c) => *self matches FsLike::DirectoryLike { children } && c == children,
                None => *self matches FsLike::FileLike { .. },
            },
    {
        match self {
            FsLike::DirectoryLike { children } => Some(children),
            FsLike::FileLike { .. } => None,
        }
    }

    /// The children of a directory node for mutation, or `None` for a file.
    pub fn children_mut(&mut self) -> (r: Option<&mut Vec<(String, FsLike)>>)
        ensures
            match r {
                Some(c) => *old(self) matches FsLike::DirectoryLike { children } && *c == children
                    && *final(self) == (FsLike::DirectoryLike { children: *final(c) }),
                None => *old(self) matches FsLike::FileLike { .. } && *final(self) == *old(self),
            },
    {
        match self {
            FsLike::DirectoryLike { children } => Some(children),
            FsLike::FileLike { .. } => None,
        }
    }
}

impl FsLike {
    /// Look up the node a path resolves to, or `None` if any segment is
    /// missing or an intermediate segment names a file.
    pub fn get(&self, path: &str) -> (r: Option<&FsLike>)
        ensures
            match r {
                Some(node) => self.node_at(segments(path@)) == Some(*node),
                None => self.node_at(segments(path@)) is None,
            },
    {
        let segs = split_path(path);
        proof {
            assert(segs.deep_view().skip(0) =~= segments(path@));
        }
        self.get_segs(&segs, 0)
    }

    /// Descend along `segs[i..]`.
    fn get_segs<'a>(&'a self, segs: &Vec<String>, i: usize) -> (r: Option<&'a FsLike>)
        requires
            i <= segs@.len(),
        ensures
            match r {
                Some(node) => self.node_at(segs.deep_view().skip(i as int)) == Some(*node),
                None => self.node_at(segs.deep_view().skip(i as int)) is None,
            },
        decreases segs@.len() - i,
    {
        let ghost p = segs.deep_view().skip(i as int);
        if i == segs.len() {
            proof {
                assert(p.len() == 0);
            }
            return Some(self);
        }
        match self {
            FsLike::FileLike { .. } => None,
            FsLike::DirectoryLike { children } => {
                match find_child(children, &segs[i]) {
                    None => {
                        proof {
                            lemma_child_lookup_none(children@, p[0]);
                        }
                        None
                    },
                    Some(idx) => {
                        proof {
                            lemma_child_lookup_found(children@, p[0], idx as int);
                        }
                        let child = &children[idx].1;
                        let r = child.get_segs(segs, i + 1);
                        proof {
                            assert(p.drop_first() =~= segs.deep_view().skip(i as int + 1));
                        }
                        r
                    },
                }
            },
        }
    }
}

impl FsLike {
    /// What inserting `node` at `path` answers, before any change is made:
    /// missing intermediate directories are created, so the walk fails only
    /// where an existing file stands in the way, or where a directory would
    /// replace an existing file at the final segment.
    pub open spec fn insert_result(self, path: Seq<Seq<char>>, node_is_dir: bool) -> Result<
        (),
        FsError,
    >
        decreases path.len(),
    {
        if path.len() == 0 {
            Ok(())
        } else {
            match self {
                FsLike::FileLike { .. } => Err(FsError::NotADirectory),
                FsLike::DirectoryLike { children } => {
                    match Self::child_lookup(children@, path[0]) {
                        None => Ok(()),
                        Some(existing) => {
                            if path.len() == 1 {
                                match existing {
                                    FsLike::DirectoryLike { .. } => Ok(()),
                                    FsLike::FileLike { .. } => {
                                        if node_is_dir {
                                            Err(FsError::NotADirectory)
                                        } else {
                                            Ok(())
                                        }
                                    },
                                }
                            } else {
                                existing.insert_result(path.drop_first(), node_is_dir)
                            }
                        },
                    }
                },
            }
        }
    }

    /// Whether a successful insert changes the tree: inserting over an
    /// existing directory is a no-op, and so is inserting an empty file over
    /// an existing file (a `touch` never erases content).
    pub open spec fn insert_writes(self, path: Seq<Seq<char>>, node_is_dir: bool, data: Seq<
        u8,
    >) -> bool {
        match self.entry_at(path) {
            None => true,
            Some(Entry::Dir) => false,
            Some(Entry::File(_)) => !node_is_dir && data.len() > 0,
        }
    }

    /// The bytes a node carries: a file's data, or empty for a directory.
    pub open spec fn file_data(self) -> Seq<u8> {
        match self {
            FsLike::FileLike { data } => data@,
            FsLike::DirectoryLike { .. } => Seq::empty(),
        }
    }

    /// The entries after a successful write of `node` at `path`: the subtree
    /// at the path is `node`'s, every proper prefix is a directory (missing
    /// ones are created), and every other path keeps its old entry.
    pub open spec fn entry_after_insert(
        self,
        path: Seq<Seq<char>>,
        node: FsLike,
        q: Seq<Seq<char>>,
    ) -> Option<Entry> {
        if begins_with(q, path) {
            node.entry_at(q.skip(path.len() as int))
        } else if begins_with(path, q) {
            Some(Entry::Dir)
        } else {
            self.entry_at(q)
        }
    }

    /// Insert `node` at `path`, creating missing intermediate directories.
    pub fn insert(&mut self, path: &str, node: FsLike) -> (r: Result<(), FsError>)
        ensures
            ({
                let p = segments(path@);
                let t0 = *old(self);
                let t1 = *final(self);
                &&& r == t0.insert_result(p, node is DirectoryLike)
                &&& (t0.wf() && node.wf() ==> t1.wf())
                &&& (r is Err ==> forall|q: Seq<Seq<char>>| #[trigger]
                    t1.entry_at(q) == t0.entry_at(q))
                &&& (r is Ok && p.len() == 0 ==> forall|q: Seq<Seq<char>>| #[trigger]
                    t1.entry_at(q) == node.entry_at(q))
                &&& (r is Ok && p.len() > 0 && !t0.insert_writes(p, node is DirectoryLike,
                node.file_data()) ==> forall|
                    q: Seq<Seq<char>>,
                | #[trigger] t1.entry_at(q) == t0.entry_at(q))
                &&& (r is Ok && p.len() > 0 && t0.insert_writes(p, node is DirectoryLike,
                node.file_data()) ==> forall|
                    q: Seq<Seq<char>>,
                | #[trigger] t1.entry_at(q) == t0.entry_after_insert(p, node, q))
                &&& (t0 is DirectoryLike && p.len() > 0 ==> t1 is DirectoryLike)
            }),
    {
        let segs = split_path(path);
        proof {
            assert(segs.deep_view().skip(0) =~= segments(path@));
        }
        if segs.len() == 0 {
            *self = node;
            Ok(())
        } else {
            let mut tmp = FsLike::FileLike { data: Vec::new() };
            core::mem::swap(self, &mut tmp);
            let ghost t0 = tmp;
            let (t1, r) = Self::insert_at(tmp, &segs, 0, node);
            proof {
                let p = segments(path@);
                if t0 is DirectoryLike {
                    lemma_entry_nil(t0);
                    lemma_entry_nil(t1);
                    let q = Seq::<Seq<char>>::empty();
                    assert(!begins_with(q, p));
                    assert(begins_with(p, q)) by {
                        assert(p.take(0) =~= q);
                    }
                    assert(t1.entry_at(q) is Some);
                    assert(t1.entry_at(q) == Some(t1.entry()));
                    assert(t1.entry() is Dir);
                }
            }
            *self = t1;
            r
        }
    }

    /// Insert `node` at `segs[i..]` below `t`, returning the new tree.
    fn insert_at(t: FsLike, segs: &Vec<String>, i: usize, node: FsLike) -> (res: (
        FsLike,
        Result<(), FsError>,
    ))
        requires
            i < segs@.len(),
        ensures
            ({
                let p = segs.deep_view().skip(i as int);
                let t1 = res.0;
                let r = res.1;
                &&& r == t.insert_result(p, node is DirectoryLike)
                &&& (t.wf() && node.wf() ==> t1.wf())
                &&& (r is Err ==> forall|q: Seq<Seq<char>>| #[trigger]
                    t1.entry_at(q) == t.entry_at(q))
                &&& (r is Ok && !t.insert_writes(p, node is DirectoryLike, node.file_data())
                    ==> forall|q: Seq<Seq<char>>|
                    #[trigger] t1.entry_at(q) == t.entry_at(q))
                &&& (r is Ok && t.insert_writes(p, node is DirectoryLike, node.file_data())
                    ==> forall|q: Seq<Seq<char>>|
                    #[trigger] t1.entry_at(q) == t.entry_after_insert(p, node, q))
            }),
        decreases segs@.len() - i,
    {
        let ghost p = segs.deep_view().skip(i as int);
        let ghost t_g = t;
        proof {
            assert(p[0] == segs.deep_view()[i as int]);
            assert(p.drop_first() =~= segs.deep_view().skip(i as int + 1));
        }
        match t {
            FsLike::FileLike { data } => {
                let res0 = FsLike::FileLike { data };
                proof {
                    assert(res0 == t_g);
                    assert(p.len() > 0);
                    assert(t_g.insert_result(p, node is DirectoryLike) == Err::<(), FsError>(
                        FsError::NotADirectory,
                    ));
                }
                (res0, Err(FsError::NotADirectory))
            },
            FsLike::DirectoryLike { mut children } => {
                let ghost t0 = FsLike::DirectoryLike { children };
                let ghost cs0 = children@;
                proof {
                    assert(t0 == t_g);
                }
                let idx_opt = find_child(&children, &segs[i]);
                proof {
                    match idx_opt {
                        Some(idx) => lemma_child_lookup_found(cs0, p[0], idx as int),
                        None => lemma_child_lookup_none(cs0, p[0]),
                    }
                }
                if i == segs.len() - 1 {
                    proof {
                        assert(p =~= seq![p[0]]);
                    }
                    match idx_opt {
                        None => {
                            let ghost node_g = node;
                            let name = segs[i].clone();
                            let ghost name_g = name;
                            children.push((name, node));
                            let t1 = FsLike::DirectoryLike { children };
                            proof {
                                assert(t1.children_view() == cs0.push((name_g, node_g)));
                                assert(t1.children_view().drop_last() =~= cs0);
                                assert(t1.children_view().last() == (name_g, node_g));
                                lemma_insert_leaf(t0, cs0, t1, p[0], node_g, None);
                            }
                            (t1, Ok(()))
                        },
                        Some(idx) => {
                            let existing_is_dir = match &children[idx].1 {
                                FsLike::DirectoryLike { .. } => true,
                                FsLike::FileLike { .. } => false,
                            };
                            if existing_is_dir {
                                let t1 = FsLike::DirectoryLike { children };
                                proof {
                                    assert(t1 == t0);
                                    assert(cs0[idx as int].1 is DirectoryLike);
                                    assert(p.drop_first().len() == 0);
                                    assert(cs0[idx as int].1.node_at(p.drop_first()) == Some(
                                        cs0[idx as int].1,
                                    ));
                                    assert(t0.node_at(p) == cs0[idx as int].1.node_at(
                                        p.drop_first(),
                                    ));
                                    assert(t0.entry_at(p) == Some(Entry::Dir));
                                    assert(!t0.insert_writes(p, node is DirectoryLike, node.file_data()));
                                    assert(t0.insert_result(p, node is DirectoryLike) == Ok::<
                                        (),
                                        FsError,
                                    >(()));
                                }
                                (t1, Ok(()))
                            } else {
                                match node {
                                    FsLike::DirectoryLike { .. } => {
                                        let t1 = FsLike::DirectoryLike { children };
                                        proof {
                                            assert(t1 == t0);
                                            assert(t0.insert_result(p, node is DirectoryLike)
                                                == Err::<(), FsError>(FsError::NotADirectory));
                                        }
                                        (t1, Err(FsError::NotADirectory))
                                    },
                                    FsLike::FileLike { data } => {
                                        if data.len() == 0 {
                                            let t1 = FsLike::DirectoryLike { children };
                                            proof {
                                                assert(t1 == t0);
                                                assert(cs0[idx as int].1 is FileLike);
                                                assert(p.drop_first().len() == 0);
                                                assert(cs0[idx as int].1.node_at(p.drop_first())
                                                    == Some(cs0[idx as int].1));
                                                assert(t0.node_at(p) == cs0[idx as int].1.node_at(
                                                    p.drop_first(),
                                                ));
                                                assert(t0.entry_at(p) matches Some(
                                                    Entry::File(_),
                                                ));
                                                assert(!t0.insert_writes(p, false, data@));
                                                assert(t0.insert_result(p, false) == Ok::<
                                                    (),
                                                    FsError,
                                                >(()));
                                            }
                                            (t1, Ok(()))
                                        } else {
                                            let newfile = FsLike::FileLike { data };
                                            let ghost node_g = newfile;
                                            let pair = children.remove(idx);
                                            children.insert(idx, (pair.0, newfile));
                                            let t1 = FsLike::DirectoryLike { children };
                                            proof {
                                                assert(t1.children_view() =~= cs0.update(
                                                    idx as int,
                                                    (cs0[idx as int].0, node_g),
                                                ));
                                                lemma_insert_leaf(t0, cs0, t1, p[0], node_g, Some(idx as int));
                                            }
                                            (t1, Ok(()))
                                        }
                                    },
                                }
                            }
                        },
                    }
                } else {
                    match idx_opt {
                        None => {
                            let ghost node_g = node;
                            let fresh = FsLike::DirectoryLike { children: Vec::new() };
                            let ghost fresh_g = fresh;
                            let (nc, r2) = Self::insert_at(fresh, segs, i + 1, node);
                            let ghost nc_g = nc;
                            let name = segs[i].clone();
                            let ghost name_g = name;
                            children.push((name, nc));
                            let t1 = FsLike::DirectoryLike { children };
                            proof {
                                assert(t1.children_view() == cs0.push((name_g, nc_g)));
                                assert(t1.children_view().drop_last() =~= cs0);
                                assert(t1.children_view().last() == (name_g, nc_g));
                                lemma_insert_step_fresh(t0, cs0, t1, p, node_g, fresh_g, nc_g);
                            }
                            (t1, r2)
                        },
                        Some(idx) => {
                            let pair = children.remove(idx);
                            match pair.1 {
                                FsLike::FileLike { data } => {
                                    children.insert(idx, (pair.0, FsLike::FileLike { data }));
                                    let t1 = FsLike::DirectoryLike { children };
                                    proof {
                                        assert(t1.children_view() =~= cs0);
                                        lemma_dir_same_children(t0, t1);
                                        assert(cs0[idx as int].1 is FileLike);
                                        assert(p.len() >= 2);
                                        assert(t0.insert_result(p, node is DirectoryLike)
                                            == cs0[idx as int].1.insert_result(
                                            p.drop_first(),
                                            node is DirectoryLike,
                                        ));
                                        assert(cs0[idx as int].1.insert_result(
                                            p.drop_first(),
                                            node is DirectoryLike,
                                        ) == Err::<(), FsError>(FsError::NotADirectory));
                                    }
                                    (t1, Err(FsError::NotADirectory))
                                },
                                FsLike::DirectoryLike { children: child_children } => {
                                    let ghost node_g = node;
                                    let child = FsLike::DirectoryLike { children: child_children };
                                    let ghost child0 = child;
                                    let (nc, r) = Self::insert_at(child, segs, i + 1, node);
                                    let ghost nc_g = nc;
                                    children.insert(idx, (pair.0, nc));
                                    let t1 = FsLike::DirectoryLike { children };
                                    proof {
                                        assert(t1.children_view() =~= cs0.update(
                                            idx as int,
                                            (cs0[idx as int].0, nc_g),
                                        ));
                                        lemma_insert_step_existing(t0, cs0, t1, p, node_g, child0, nc_g, idx as int, r);
                                    }
                                    (t1, r)
                                },
                            }
                        },
                    }
                }
            },
        }
    }

    /// What removing `path` answers: the path must resolve, and must not
    /// name the root (the one path with no parent).
    pub open spec fn remove_result(self, path: Seq<Seq<char>>) -> Result<(), FsError> {
        if self.node_at(path) is None {
            Err(FsError::NotFound)
        } else if path.len() == 0 || path == seq![seq!['/']] {
            Err(FsError::InvalidPath)
        } else {
            Ok(())
        }
    }

    /// Remove the node at `path` together with its whole subtree. On
    /// success the entry at the path and at every path below it is gone,
    /// and every other path keeps its entry.
    pub fn remove(&mut self, path: &str) -> (r: Result<(), FsError>)
        requires
            old(self).wf(),
        ensures
            ({
                let p = segments(path@);
                let t0 = *old(self);
                let t1 = *final(self);
                &&& r == t0.remove_result(p)
                &&& t1.wf()
                &&& (r is Err ==> forall|q: Seq<Seq<char>>| #[trigger]
                    t1.entry_at(q) == t0.entry_at(q))
                &&& (r is Ok ==> forall|q: Seq<Seq<char>>| #[trigger]
                    t1.entry_at(q) == (if begins_with(q, p) {
                        None::<Entry>
                    } else {
                        t0.entry_at(q)
                    }))
                &&& (t0 is DirectoryLike ==> t1 is DirectoryLike)
            }),
    {
        let segs = split_path(path);
        proof {
            assert(segs.deep_view().skip(0) =~= segments(path@));
        }
        let exists = {
            let found = self.get_segs(&segs, 0);
            found.is_some()
        };
        if !exists {
            return Err(FsError::NotFound);
        }
        if segs.len() == 0 {
            return Err(FsError::InvalidPath);
        }
        if segs.len() == 1 {
            let only = &segs[0];
            if only.unicode_len() == 1 && only.as_str().get_char(0) == '/' {
                proof {
                    assert(segs.deep_view()[0] =~= seq!['/']);
                    assert(segments(path@) =~= seq![seq!['/']]);
                }
                return Err(FsError::InvalidPath);
            }
            proof {
                assert(segments(path@) != seq![seq!['/']]) by {
                    if segments(path@) == seq![seq!['/']] {
                        assert(segs.deep_view()[0] == seq!['/']);
                        assert(segs@[0]@[0] == '/');
                    }
                }
            }
        } else {
            proof {
                assert(segments(path@).len() != seq![seq!['/']].len());
            }
        }
        let mut tmp = FsLike::FileLike { data: Vec::new() };
        core::mem::swap(self, &mut tmp);
        let ghost t0 = tmp;
        let t1 = Self::remove_at(tmp, &segs, 0);
        proof {
            let p = segments(path@);
            if t0 is DirectoryLike {
                lemma_entry_nil(t0);
                lemma_entry_nil(t1);
                let q = Seq::<Seq<char>>::empty();
                assert(!begins_with(q, p));
                assert(t1.entry_at(q) == t0.entry_at(q));
                assert(t1.entry() is Dir);
            }
        }
        *self = t1;
        Ok(())
    }

    /// Remove the node at `segs[i..]` below `t`, which must resolve.
    fn remove_at(t: FsLike, segs: &Vec<String>, i: usize) -> (t1: FsLike)
        requires
            i < segs@.len(),
            t.wf(),
            t.node_at(segs.deep_view().skip(i as int)) is Some,
        ensures
            ({
                let p = segs.deep_view().skip(i as int);
                &&& t1.wf()
                &&& forall|q: Seq<Seq<char>>| #[trigger]
                    t1.entry_at(q) == (if begins_with(q, p) {
                        None::<Entry>
                    } else {
                        t.entry_at(q)
                    })
            }),
        decreases segs@.len() - i,
    {
        let ghost p = segs.deep_view().skip(i as int);
        let ghost t_g = t;
        proof {
            assert(p[0] == segs.deep_view()[i as int]);
            assert(p.drop_first() =~= segs.deep_view().skip(i as int + 1));
        }
        match t {
            FsLike::FileLike { data } => {
                proof {
                    assert(false);
                }
                FsLike::FileLike { data }
            },
            FsLike::DirectoryLike { mut children } => {
                let ghost t0 = FsLike::DirectoryLike { children };
                let ghost cs0 = children@;
                proof {
                    assert(t0 == t_g);
                }
                let idx_opt = find_child(&children, &segs[i]);
                let idx = match idx_opt {
                    None => {
                        proof {
                            lemma_child_lookup_none(cs0, p[0]);
                            assert(false);
                        }
                        0
                    },
                    Some(idx) => idx,
                };
                proof {
                    lemma_child_lookup_found(cs0, p[0], idx as int);
                }
                if i == segs.len() - 1 {
                    let _removed = children.remove(idx);
                    let t1 = FsLike::DirectoryLike { children };
                    proof {
                        assert(p =~= seq![p[0]]);
                        assert(t1.children_view() == cs0.remove(idx as int));
                        lemma_remove_leaf(t0, cs0, t1, p[0], idx as int);
                    }
                    t1
                } else {
                    let pair = children.remove(idx);
                    match pair.1 {
                        FsLike::FileLike { data } => {
                            proof {
                                assert(t0.node_at(p) == cs0[idx as int].1.node_at(p.drop_first()));
                                assert(false);
                            }
                            children.insert(idx, (pair.0, FsLike::FileLike { data }));
                            FsLike::DirectoryLike { children }
                        },
                        FsLike::DirectoryLike { children: child_children } => {
                            let child = FsLike::DirectoryLike { children: child_children };
                            let ghost child0 = child;
                            proof {
                                assert(child0 == cs0[idx as int].1);
                                assert(t0.node_at(p) == child0.node_at(p.drop_first()));
                                lemma_all_wf_index(cs0);
                                assert(cs0[idx as int].1.wf());
                            }
                            let nc = Self::remove_at(child, segs, i + 1);
                            let ghost nc_g = nc;
                            children.insert(idx, (pair.0, nc));
                            let t1 = FsLike::DirectoryLike { children };
                            proof {
                                assert(t1.children_view() =~= cs0.update(
                                    idx as int,
                                    (cs0[idx as int].0, nc_g),
                                ));
                                lemma_remove_step(t0, cs0, t1, p, child0, nc_g, idx as int);
                            }
                            t1
                        },
                    }
                }
            },
        }
    }

    /// The children of a directory, or the empty sequence for a file.
    pub open spec fn children_view(self) -> Seq<(String, FsLike)> {
        match self {
            FsLike::DirectoryLike { children } => children@,
            FsLike::FileLike { .. } => Seq::empty(),
        }
    }
}

/// Position of the first child with the given name.
fn find_child(children: &Vec<(String, FsLike)>, name: &String) -> (r: Option<usize>)
    ensures
        match r {
            Some(i) => i < children@.len() && children@[i as int].0@ == name@ && (forall|j: int|
                0 <= j < i ==> #[trigger] children@[j].0@ != name@),
            None => forall|j: int|
                0 <= j < children@.len() ==> #[trigger] children@[j].0@ != name@,
        },
{
    let n = children.len();
    let mut i: usize = 0;
    while i < n
        invariant
            n == children@.len(),
            i <= n,
            forall|j: int| 0 <= j < i ==> #[trigger] children@[j].0@ != name@,
        decreases n - i,
    {
        if children[i].0 == *name {
            return Some(i);
        }
        i += 1;
    }
    None
}

/// A found first occurrence is what `child_lookup` returns.
proof fn lemma_child_lookup_found(children: Seq<(String, FsLike)>, name: Seq<char>, i: int)
    requires
        0 <= i < children.len(),
        children[i].0@ == name,
        forall|j: int| 0 <= j < i ==> #[trigger] children[j].0@ != name,
    ensures
        FsLike::child_lookup(children, name) == Some(children[i].1),
    decreases i,
{
    if i > 0 {
        assert(forall|j: int|
            0 <= j < i - 1 ==> #[trigger] children.drop_first()[j].0@ != name);
        lemma_child_lookup_found(children.drop_first(), name, i - 1);
    }
}

/// With no occurrence, `child_lookup` returns `None`.
proof fn lemma_child_lookup_none(children: Seq<(String, FsLike)>, name: Seq<char>)
    requires
        forall|j: int| 0 <= j < children.len() ==> #[trigger] children[j].0@ != name,
    ensures
        FsLike::child_lookup(children, name) is None,
    decreases children.len(),
{
    if children.len() > 0 {
        assert(forall|j: int|
            0 <= j < children.drop_first().len() ==> #[trigger] children.drop_first()[j].0@
                != name);
        lemma_child_lookup_none(children.drop_first(), name);
    }
}


/// The empty path resolves to the node itself.
pub proof fn lemma_entry_nil(t: FsLike)
    ensures
        t.entry_at(Seq::empty()) == Some(t.entry()),
        (t.entry() is Dir) == (t is DirectoryLike),
{
}

/// Removing the first child bearing a unique name ends that name's lookup
/// and no other's.
proof fn lemma_lookup_remove(cs: Seq<(String, FsLike)>, idx: int, name: Seq<char>)
    requires
        0 <= idx < cs.len(),
        forall|j: int| 0 <= j < cs.len() && j != idx ==> #[trigger] cs[j].0@ != cs[idx].0@,
    ensures
        FsLike::child_lookup(cs.remove(idx), name) == (if cs[idx].0@ == name {
            None::<FsLike>
        } else {
            FsLike::child_lookup(cs, name)
        }),
    decreases idx,
{
    let cs1 = cs.remove(idx);
    if idx == 0 {
        assert(cs1 =~= cs.drop_first());
        if cs[0].0@ == name {
            assert forall|j: int| 0 <= j < cs1.len() implies #[trigger] cs1[j].0@ != name by {
                assert(cs1[j] == cs[j + 1]);
            }
            lemma_child_lookup_none(cs1, name);
        }
    } else {
        assert(cs1[0] == cs[0]);
        if cs[0].0@ != name {
            assert(cs1.drop_first() =~= cs.drop_first().remove(idx - 1));
            assert(forall|j: int|
                0 <= j < cs.drop_first().len() && j != idx - 1 ==> #[trigger] cs.drop_first()[j].0@
                    != cs.drop_first()[idx - 1].0@);
            lemma_lookup_remove(cs.drop_first(), idx - 1, name);
        }
    }
}

/// The entry transformation of removing a single-segment path.
proof fn lemma_remove_leaf(
    t0: FsLike,
    cs0: Seq<(String, FsLike)>,
    t1: FsLike,
    name: Seq<char>,
    idx: int,
)
    requires
        t0 is DirectoryLike,
        t0.children_view() == cs0,
        t0.wf(),
        0 <= idx < cs0.len(),
        cs0[idx].0@ == name,
        t1 is DirectoryLike,
        t1.children_view() == cs0.remove(idx),
    ensures
        t1.wf(),
        forall|q: Seq<Seq<char>>| #[trigger]
            t1.entry_at(q) == (if begins_with(q, seq![name]) {
                None::<Entry>
            } else {
                t0.entry_at(q)
            }),
{
    let p = seq![name];
    let cs1 = t1.children_view();
    assert forall|q: Seq<Seq<char>>| true implies #[trigger] t1.entry_at(q) == (if begins_with(
        q,
        p,
    ) {
        None::<Entry>
    } else {
        t0.entry_at(q)
    }) by {
        if q.len() == 0 {
            assert(!begins_with(q, p));
        } else {
            let qd = q.drop_first();
            assert(forall|j: int|
                0 <= j < cs0.len() && j != idx ==> #[trigger] cs0[j].0@ != cs0[idx].0@);
            lemma_lookup_remove(cs0, idx, q[0]);
            if q[0] == name {
                assert(FsLike::child_lookup(cs1, q[0]) is None);
                assert(t1.node_at(q) is None);
                assert(begins_with(q, p)) by {
                    assert(q.take(1) =~= p);
                }
            } else {
                assert(FsLike::child_lookup(cs1, q[0]) == FsLike::child_lookup(cs0, q[0]));
                assert(t1.node_at(q) == match FsLike::child_lookup(cs0, q[0]) {
                    None => None,
                    Some(child) => child.node_at(qd),
                });
                assert(!begins_with(q, p)) by {
                    if begins_with(q, p) {
                        assert(q.take(1)[0] == q[0]);
                    }
                }
            }
        }
    }
    lemma_all_wf_index(cs0);
    lemma_all_wf_index(cs1);
    assert forall|i: int| 0 <= i < cs1.len() implies #[trigger] cs1[i].1.wf() by {
        if i < idx {
            assert(cs1[i] == cs0[i]);
        } else {
            assert(cs1[i] == cs0[i + 1]);
        }
        assert(cs0[if i < idx {
            i
        } else {
            i + 1
        }].1.wf());
    }
    assert forall|i: int, j: int| 0 <= i < j < cs1.len() implies cs1[i].0@ != cs1[j].0@ by {
        let i0 = if i < idx {
            i
        } else {
            i + 1
        };
        let j0 = if j < idx {
            j
        } else {
            j + 1
        };
        assert(cs1[i] == cs0[i0] && cs1[j] == cs0[j0]);
    }
    assert(FsLike::unique_names(cs1));
}

/// The entry transformation of a removal that descends into a child
/// directory.
proof fn lemma_remove_step(
    t0: FsLike,
    cs0: Seq<(String, FsLike)>,
    t1: FsLike,
    p: Seq<Seq<char>>,
    child0: FsLike,
    nc: FsLike,
    idx: int,
)
    requires
        t0 is DirectoryLike,
        t0.children_view() == cs0,
        t0.wf(),
        p.len() >= 2,
        0 <= idx < cs0.len(),
        cs0[idx].0@ == p[0],
        forall|j: int| 0 <= j < idx ==> #[trigger] cs0[j].0@ != p[0],
        child0 == cs0[idx].1,
        t1 is DirectoryLike,
        t1.children_view() == cs0.update(idx, (cs0[idx].0, nc)),
        nc.wf(),
        forall|q: Seq<Seq<char>>| #[trigger]
            nc.entry_at(q) == (if begins_with(q, p.drop_first()) {
                None::<Entry>
            } else {
                child0.entry_at(q)
            }),
    ensures
        t1.wf(),
        forall|q: Seq<Seq<char>>| #[trigger]
            t1.entry_at(q) == (if begins_with(q, p) {
                None::<Entry>
            } else {
                t0.entry_at(q)
            }),
{
    let pd = p.drop_first();
    let cs1 = t1.children_view();
    lemma_child_lookup_found(cs0, p[0], idx);
    assert forall|q: Seq<Seq<char>>| true implies #[trigger] t1.entry_at(q) == (if begins_with(
        q,
        p,
    ) {
        None::<Entry>
    } else {
        t0.entry_at(q)
    }) by {
        lemma_begins_with_step(q, p);
        if q.len() > 0 {
            let qd = q.drop_first();
            lemma_lookup_update(cs0, idx, nc, q[0]);
            if q[0] == p[0] {
                assert(FsLike::child_lookup(cs1, q[0]) == Some(nc));
                assert(t1.node_at(q) == nc.node_at(qd));
                assert(nc.entry_at(qd) == (if begins_with(qd, pd) {
                    None::<Entry>
                } else {
                    child0.entry_at(qd)
                }));
                assert(t0.node_at(q) == child0.node_at(qd));
            } else {
                assert(FsLike::child_lookup(cs1, q[0]) == FsLike::child_lookup(cs0, q[0]));
                assert(t1.node_at(q) == match FsLike::child_lookup(cs0, q[0]) {
                    None => None,
                    Some(child) => child.node_at(qd),
                });
            }
        }
    }
    lemma_all_wf_index(cs0);
    lemma_all_wf_index(cs1);
    assert forall|i: int| 0 <= i < cs1.len() implies #[trigger] cs1[i].1.wf() by {
        if i != idx {
            assert(cs1[i] == cs0[i]);
            assert(cs0[i].1.wf());
        }
    }
    assert(forall|i: int| 0 <= i < cs1.len() ==> cs1[i].0 == cs0[i].0);
    assert(FsLike::unique_names(cs1));
}

/// Appending a child changes only its own name's lookup, and only when that
/// name was absent.
proof fn lemma_lookup_push(cs: Seq<(String, FsLike)>, x: (String, FsLike), name: Seq<char>)
    ensures
        FsLike::child_lookup(cs.push(x), name) == (match FsLike::child_lookup(cs, name) {
            Some(c) => Some(c),
            None => if x.0@ == name {
                Some(x.1)
            } else {
                None::<FsLike>
            },
        }),
    decreases cs.len(),
{
    let cs1 = cs.push(x);
    assert(cs1.len() == cs.len() + 1);
    if cs.len() == 0 {
        assert(cs1[0] == x);
        assert(cs1.drop_first() =~= Seq::<(String, FsLike)>::empty());
        assert(FsLike::child_lookup(cs1.drop_first(), name) is None);
        assert(FsLike::child_lookup(cs, name) is None);
    } else {
        assert(cs1[0] == cs[0]);
        assert(cs1.drop_first() =~= cs.drop_first().push(x));
        lemma_lookup_push(cs.drop_first(), x, name);
    }
}

/// Updating the value of the first child bearing a name changes only that
/// name's lookup.
proof fn lemma_lookup_update(cs: Seq<(String, FsLike)>, idx: int, v: FsLike, name: Seq<char>)
    requires
        0 <= idx < cs.len(),
        forall|j: int| 0 <= j < idx ==> #[trigger] cs[j].0@ != cs[idx].0@,
    ensures
        FsLike::child_lookup(cs.update(idx, (cs[idx].0, v)), name) == (if cs[idx].0@ == name {
            Some(v)
        } else {
            FsLike::child_lookup(cs, name)
        }),
    decreases idx,
{
    let cs1 = cs.update(idx, (cs[idx].0, v));
    if idx == 0 {
        assert(cs1[0] == (cs[0].0, v));
        if cs[0].0@ != name {
            assert(cs1.drop_first() =~= cs.drop_first());
        }
    } else {
        assert(cs1[0] == cs[0]);
        if cs[0].0@ != name {
            let csd = cs.drop_first();
            assert(cs1.drop_first() =~= csd.update(idx - 1, (csd[idx - 1].0, v)));
            assert(forall|j: int| 0 <= j < idx - 1 ==> #[trigger] csd[j].0@ != csd[idx - 1].0@);
            lemma_lookup_update(csd, idx - 1, v, name);
        }
    }
}

/// Two directories over the same children sequence hold the same entries.
proof fn lemma_dir_same_children(t0: FsLike, t1: FsLike)
    requires
        t0 is DirectoryLike,
        t1 is DirectoryLike,
        t0.children_view() == t1.children_view(),
    ensures
        forall|q: Seq<Seq<char>>| #[trigger] t1.entry_at(q) == t0.entry_at(q),
{
    assert forall|q: Seq<Seq<char>>| #[trigger] t1.entry_at(q) == t0.entry_at(q) by {
        if q.len() > 0 {
            assert(t1.node_at(q) == match FsLike::child_lookup(t1.children_view(), q[0]) {
                None => None,
                Some(child) => child.node_at(q.drop_first()),
            });
            assert(t0.node_at(q) == match FsLike::child_lookup(t0.children_view(), q[0]) {
                None => None,
                Some(child) => child.node_at(q.drop_first()),
            });
        }
    }
}

/// The entry transformation of an insert at a single-segment path, for both
/// the fresh-name case (`upd` is `None`: the pair was appended) and the
/// overwrite case (`upd` names the position whose value became `node`).
proof fn lemma_insert_leaf(
    t0: FsLike,
    cs0: Seq<(String, FsLike)>,
    t1: FsLike,
    name: Seq<char>,
    node: FsLike,
    upd: Option<int>,
)
    requires
        t0 is DirectoryLike,
        t0.children_view() == cs0,
        t1 is DirectoryLike,
        match upd {
            None => FsLike::child_lookup(cs0, name) is None && t1.children_view().len() == cs0.len()
                + 1 && t1.children_view().drop_last() == cs0 && t1.children_view().last().0@
                == name && t1.children_view().last().1 == node,
            Some(idx) => 0 <= idx < cs0.len() && cs0[idx].0@ == name && (forall|j: int|
                0 <= j < idx ==> #[trigger] cs0[j].0@ != name) && t1.children_view()
                == cs0.update(idx, (cs0[idx].0, node)),
        },
    ensures
        forall|q: Seq<Seq<char>>| #[trigger]
            t1.entry_at(q) == t0.entry_after_insert(seq![name], node, q),
        t0.wf() && node.wf() ==> t1.wf(),
{
    let p = seq![name];
    let cs1 = t1.children_view();
    assert forall|q: Seq<Seq<char>>| #[trigger]
        t1.entry_at(q) == t0.entry_after_insert(p, node, q) by {
        if q.len() == 0 {
            assert(p.take(0) =~= q);
            assert(begins_with(p, q));
            assert(!begins_with(q, p));
        } else {
            let qd = q.drop_first();
            match upd {
                None => {
                    assert(cs1 =~= cs0.push(cs1.last()));
                    lemma_lookup_push(cs0, cs1.last(), q[0]);
                },
                Some(idx) => {
                    lemma_lookup_update(cs0, idx, node, q[0]);
                },
            }
            if q[0] == name {
                assert(FsLike::child_lookup(cs1, q[0]) == Some(node));
                assert(t1.node_at(q) == node.node_at(qd));
                assert(begins_with(q, p)) by {
                    assert(q.take(1) =~= p);
                }
                assert(q.skip(1) =~= qd);
            } else {
                assert(FsLike::child_lookup(cs1, q[0]) == FsLike::child_lookup(cs0, q[0]));
                assert(t1.node_at(q) == match FsLike::child_lookup(cs0, q[0]) {
                    None => None,
                    Some(child) => child.node_at(qd),
                });
                assert(!begins_with(q, p)) by {
                    if begins_with(q, p) {
                        assert(q.take(1)[0] == q[0]);
                    }
                }
                assert(!begins_with(p, q)) by {
                    if begins_with(p, q) {
                        assert(p.take(q.len() as int)[0] == p[0]);
                    }
                }
            }
        }
    }
    if t0.wf() && node.wf() {
        lemma_all_wf_index(cs0);
        lemma_all_wf_index(cs1);
        match upd {
            None => {
                assert forall|i: int| 0 <= i < cs1.len() implies #[trigger] cs1[i].1.wf() by {
                    if i < cs0.len() {
                        assert(cs1[i] == cs0[i]);
                        assert(cs0[i].1.wf());
                    } else {
                        assert(cs1[i] == cs1.last());
                    }
                }
                assert forall|i: int, j: int| 0 <= i < j < cs1.len() implies cs1[i].0@ != cs1[j].0@
                    by {
                    if j < cs0.len() {
                        assert(cs1[i] == cs0[i] && cs1[j] == cs0[j]);
                    } else {
                        assert(cs1[i] == cs0[i]);
                        assert(cs1[j] == cs1.last());
                        lemma_lookup_member(cs0, i);
                    }
                }
                assert(FsLike::unique_names(cs1));
            },
            Some(idx) => {
                assert forall|i: int| 0 <= i < cs1.len() implies #[trigger] cs1[i].1.wf() by {
                    if i != idx {
                        assert(cs1[i] == cs0[i]);
                        assert(cs0[i].1.wf());
                    }
                }
                assert(forall|i: int| 0 <= i < cs1.len() ==> cs1[i].0 == cs0[i].0);
                assert(FsLike::unique_names(cs1));
            },
        }
    }
}

/// A name standing at some position is found by the lookup.
proof fn lemma_lookup_member(cs: Seq<(String, FsLike)>, i: int)
    requires
        0 <= i < cs.len(),
    ensures
        FsLike::child_lookup(cs, cs[i].0@) is Some,
    decreases i,
{
    if cs[0].0@ != cs[i].0@ {
        assert(cs.drop_first()[i - 1] == cs[i]);
        lemma_lookup_member(cs.drop_first(), i - 1);
    }
}

/// The entry transformation of an insert that descends into an existing
/// child directory.
proof fn lemma_insert_step_existing(
    t0: FsLike,
    cs0: Seq<(String, FsLike)>,
    t1: FsLike,
    p: Seq<Seq<char>>,
    node: FsLike,
    child0: FsLike,
    nc: FsLike,
    idx: int,
    r: Result<(), FsError>,
)
    requires
        t0 is DirectoryLike,
        t0.children_view() == cs0,
        p.len() >= 2,
        0 <= idx < cs0.len(),
        cs0[idx].0@ == p[0],
        forall|j: int| 0 <= j < idx ==> #[trigger] cs0[j].0@ != p[0],
        child0 == cs0[idx].1,
        child0 is DirectoryLike,
        t1 is DirectoryLike,
        t1.children_view() == cs0.update(idx, (cs0[idx].0, nc)),
        r == child0.insert_result(p.drop_first(), node is DirectoryLike),
        r is Err ==> forall|q: Seq<Seq<char>>| #[trigger] nc.entry_at(q) == child0.entry_at(q),
        r is Ok && !child0.insert_writes(p.drop_first(), node is DirectoryLike, node.file_data())
            ==> forall|q: Seq<Seq<char>>|
            #[trigger] nc.entry_at(q) == child0.entry_at(q),
        r is Ok && child0.insert_writes(p.drop_first(), node is DirectoryLike, node.file_data())
            ==> forall|q: Seq<Seq<char>>|
            #[trigger] nc.entry_at(q) == child0.entry_after_insert(p.drop_first(), node, q),
        child0.wf() && node.wf() ==> nc.wf(),
    ensures
        r == t0.insert_result(p, node is DirectoryLike),
        t0.insert_writes(p, node is DirectoryLike, node.file_data()) == child0.insert_writes(
            p.drop_first(),
            node is DirectoryLike,
            node.file_data(),
        ),
        r is Err ==> forall|q: Seq<Seq<char>>| #[trigger] t1.entry_at(q) == t0.entry_at(q),
        r is Ok && !t0.insert_writes(p, node is DirectoryLike, node.file_data()) ==> forall|
            q: Seq<Seq<char>>,
        | #[trigger] t1.entry_at(q) == t0.entry_at(q),
        r is Ok && t0.insert_writes(p, node is DirectoryLike, node.file_data()) ==> forall|
            q: Seq<Seq<char>>,
        | #[trigger] t1.entry_at(q) == t0.entry_after_insert(p, node, q),
        t0.wf() && node.wf() ==> t1.wf(),
{
    let pd = p.drop_first();
    let cs1 = t1.children_view();
    lemma_child_lookup_found(cs0, p[0], idx);
    assert(t0.node_at(p) == child0.node_at(pd));
    assert(t0.insert_writes(p, node is DirectoryLike, node.file_data()) == child0.insert_writes(
        pd,
        node is DirectoryLike,
        node.file_data(),
    ));
    assert forall|q: Seq<Seq<char>>| true implies #[trigger] t1.entry_at(q) == (if q.len() == 0 {
        Some(Entry::Dir)
    } else if q[0] == p[0] {
        nc.entry_at(q.drop_first())
    } else {
        t0.entry_at(q)
    }) by {
        if q.len() > 0 {
            let qd = q.drop_first();
            lemma_lookup_update(cs0, idx, nc, q[0]);
            if q[0] == p[0] {
                assert(FsLike::child_lookup(cs1, q[0]) == Some(nc));
                assert(t1.node_at(q) == nc.node_at(qd));
            } else {
                assert(FsLike::child_lookup(cs1, q[0]) == FsLike::child_lookup(cs0, q[0]));
                assert(t1.node_at(q) == match FsLike::child_lookup(cs0, q[0]) {
                    None => None,
                    Some(child) => child.node_at(qd),
                });
            }
        }
    }
    if r is Err || (r is Ok && !t0.insert_writes(p, node is DirectoryLike, node.file_data())) {
        assert forall|q: Seq<Seq<char>>| true implies #[trigger] t1.entry_at(q) == t0.entry_at(q)
            by {
            if q.len() > 0 && q[0] == p[0] {
                let qd = q.drop_first();
                assert(nc.entry_at(qd) == child0.entry_at(qd));
                assert(t0.node_at(q) == child0.node_at(qd));
            }
        }
    }
    if r is Ok && t0.insert_writes(p, node is DirectoryLike, node.file_data()) {
        assert forall|q: Seq<Seq<char>>| true implies #[trigger] t1.entry_at(q)
            == t0.entry_after_insert(p, node, q) by {
            lemma_begins_with_step(q, p);
            if q.len() == 0 {
                assert(p.take(0) =~= q);
                assert(begins_with(p, q));
            } else {
                lemma_begins_with_step(p, q);
                let qd = q.drop_first();
                if q[0] == p[0] {
                    assert(nc.entry_at(qd) == child0.entry_after_insert(pd, node, qd));
                    assert(t0.node_at(q) == child0.node_at(qd));
                    if begins_with(qd, pd) {
                        assert(q.skip(p.len() as int) =~= qd.skip(pd.len() as int));
                    }
                } else {
                    assert(!begins_with(p, q)) by {
                        if begins_with(p, q) {
                            assert(p.take(q.len() as int)[0] == p[0]);
                        }
                    }
                    assert(t0.node_at(q) == match FsLike::child_lookup(cs0, q[0]) {
                        None => None,
                        Some(child) => child.node_at(qd),
                    });
                }
            }
        }
    }
    if t0.wf() && node.wf() {
        lemma_all_wf_index(cs0);
        lemma_all_wf_index(cs1);
        assert(cs0[idx].1.wf());
        assert(child0.wf());
        assert forall|i: int| 0 <= i < cs1.len() implies #[trigger] cs1[i].1.wf() by {
            if i != idx {
                assert(cs1[i] == cs0[i]);
                assert(cs0[i].1.wf());
            }
        }
        assert(forall|i: int| 0 <= i < cs1.len() ==> cs1[i].0 == cs0[i].0);
        assert(FsLike::unique_names(cs1));
    }
}

/// The entry transformation of an insert that creates a missing
/// intermediate directory and continues below it.
proof fn lemma_insert_step_fresh(
    t0: FsLike,
    cs0: Seq<(String, FsLike)>,
    t1: FsLike,
    p: Seq<Seq<char>>,
    node: FsLike,
    fresh: FsLike,
    nc: FsLike,
)
    requires
        t0 is DirectoryLike,
        t0.children_view() == cs0,
        p.len() >= 2,
        FsLike::child_lookup(cs0, p[0]) is None,
        fresh is DirectoryLike,
        fresh.children_view() == Seq::<(String, FsLike)>::empty(),
        t1 is DirectoryLike,
        t1.children_view().len() == cs0.len() + 1,
        t1.children_view().drop_last() == cs0,
        t1.children_view().last().0@ == p[0],
        t1.children_view().last().1 == nc,
        fresh.insert_result(p.drop_first(), node is DirectoryLike) is Ok ==> (fresh.insert_writes(
            p.drop_first(),
            node is DirectoryLike,
            node.file_data(),
        ) ==> forall|q: Seq<Seq<char>>| #[trigger]
            nc.entry_at(q) == fresh.entry_after_insert(p.drop_first(), node, q)),
        fresh.wf() && node.wf() ==> nc.wf(),
    ensures
        t0.insert_result(p, node is DirectoryLike) == Ok::<(), FsError>(()),
        fresh.insert_result(p.drop_first(), node is DirectoryLike) == Ok::<(), FsError>(()),
        t0.insert_writes(p, node is DirectoryLike, node.file_data()),
        forall|q: Seq<Seq<char>>| #[trigger] t1.entry_at(q) == t0.entry_after_insert(p, node, q),
        t0.wf() && node.wf() ==> t1.wf(),
{
    let pd = p.drop_first();
    let cs1 = t1.children_view();
    assert(fresh.insert_result(pd, node is DirectoryLike) == Ok::<(), FsError>(()));
    assert(fresh.node_at(pd) is None);
    assert(fresh.insert_writes(pd, node is DirectoryLike, node.file_data()));
    assert(t0.node_at(p) is None);
    assert(t0.insert_writes(p, node is DirectoryLike, node.file_data()));
    assert(cs1 =~= cs0.push(cs1.last()));
    assert forall|q: Seq<Seq<char>>| true implies #[trigger] t1.entry_at(q)
        == t0.entry_after_insert(p, node, q) by {
        lemma_begins_with_step(q, p);
        if q.len() == 0 {
            assert(p.take(0) =~= q);
            assert(begins_with(p, q));
        } else {
            lemma_begins_with_step(p, q);
            let qd = q.drop_first();
            lemma_lookup_push(cs0, cs1.last(), q[0]);
            if q[0] == p[0] {
                assert(FsLike::child_lookup(cs1, q[0]) == Some(nc));
                assert(t1.node_at(q) == nc.node_at(qd));
                assert(nc.entry_at(qd) == fresh.entry_after_insert(pd, node, qd));
                assert(t0.node_at(q) is None);
                if begins_with(qd, pd) {
                    assert(q.skip(p.len() as int) =~= qd.skip(pd.len() as int));
                } else if begins_with(pd, qd) {
                } else {
                    assert(qd.len() > 0) by {
                        if qd.len() == 0 {
                            assert(pd.take(0) =~= qd);
                        }
                    }
                    assert(fresh.node_at(qd) is None);
                }
            } else {
                assert(FsLike::child_lookup(cs1, q[0]) == FsLike::child_lookup(cs0, q[0]));
                assert(t1.node_at(q) == match FsLike::child_lookup(cs0, q[0]) {
                    None => None,
                    Some(child) => child.node_at(qd),
                });
                assert(!begins_with(p, q)) by {
                    if begins_with(p, q) {
                        assert(p.take(q.len() as int)[0] == p[0]);
                    }
                }
            }
        }
    }
    if t0.wf() && node.wf() {
        lemma_all_wf_index(cs0);
        lemma_all_wf_index(cs1);
        assert(fresh.wf());
        assert forall|i: int| 0 <= i < cs1.len() implies #[trigger] cs1[i].1.wf() by {
            if i < cs0.len() {
                assert(cs1[i] == cs0[i]);
                assert(cs0[i].1.wf());
            } else {
                assert(cs1[i] == cs1.last());
            }
        }
        assert forall|i: int, j: int| 0 <= i < j < cs1.len() implies cs1[i].0@ != cs1[j].0@ by {
            if j < cs0.len() {
                assert(cs1[i] == cs0[i] && cs1[j] == cs0[j]);
            } else {
                assert(cs1[i] == cs0[i]);
                assert(cs1[j] == cs1.last());
                lemma_lookup_member(cs0, i);
            }
        }
    }
}

/// `all_wf` holds exactly of sequences whose members all hold `wf`.
proof fn lemma_all_wf_index(cs: Seq<(String, FsLike)>)
    ensures
        FsLike::all_wf(cs) == (forall|i: int| 0 <= i < cs.len() ==> #[trigger] cs[i].1.wf()),
    decreases cs.len(),
{
    if cs.len() > 0 {
        lemma_all_wf_index(cs.drop_first());
        if cs[0].1.wf() && FsLike::all_wf(cs.drop_first()) {
            assert forall|i: int| 0 <= i < cs.len() implies #[trigger] cs[i].1.wf() by {
                if i > 0 {
                    assert(cs.drop_first()[i - 1].1.wf());
                }
            }
        }
        if forall|i: int| 0 <= i < cs.len() ==> #[trigger] cs[i].1.wf() {
            assert(forall|i: int|
                0 <= i < cs.drop_first().len() ==> #[trigger] cs.drop_first()[i].1.wf());
        }
    }
}


/// Every proper prefix of a resolving path names a directory.
pub proof fn lemma_resolving_prefixes_are_dirs(t: FsLike, p: Seq<Seq<char>>)
    requires
        t.node_at(p) is Some,
    ensures
        forall|k: int| 0 <= k < p.len() ==> #[trigger] t.entry_at(p.take(k)) == Some(Entry::Dir),
    decreases p.len(),
{
    if p.len() > 0 {
        let pd = p.drop_first();
        match t {
            FsLike::FileLike { .. } => {},
            FsLike::DirectoryLike { children } => {
                let c = FsLike::child_lookup(children@, p[0]);
                assert(t.node_at(p) == c.unwrap().node_at(pd));
                lemma_resolving_prefixes_are_dirs(c.unwrap(), pd);
                assert forall|k: int| 0 <= k < p.len() implies #[trigger] t.entry_at(p.take(k))
                    == Some(Entry::Dir) by {
                    if k == 0 {
                        assert(p.take(0) =~= Seq::<Seq<char>>::empty());
                        lemma_entry_nil(t);
                    } else {
                        let q = p.take(k);
                        assert(q[0] == p[0]);
                        assert(t.node_at(q) == c.unwrap().node_at(q.drop_first()));
                        assert(q.drop_first() =~= pd.take(k - 1));
                        assert(c.unwrap().entry_at(pd.take(k - 1)) == Some(Entry::Dir));
                    }
                }
            },
        }
    }
}

/// Inserting a file succeeds exactly where no file stands on the walk.
pub proof fn lemma_insert_file_ok(t: FsLike, p: Seq<Seq<char>>)
    requires
        p.len() > 0,
    ensures
        (t.insert_result(p, false) is Ok) == (forall|k: int|
            0 <= k < p.len() ==> !(#[trigger] t.entry_at(p.take(k)) matches Some(
                Entry::File(_),
            ))),
    decreases p.len(),
{
    match t {
        FsLike::FileLike { .. } => {
            assert(p.take(0) =~= Seq::<Seq<char>>::empty());
            lemma_entry_nil(t);
            assert(t.entry_at(p.take(0)) matches Some(Entry::File(_)));
        },
        FsLike::DirectoryLike { children } => {
            let c = FsLike::child_lookup(children@, p[0]);
            assert forall|k: int| 0 <= k < p.len() && k >= 1 && c is Some implies #[trigger] t.entry_at(
                p.take(k),
            ) == c.unwrap().entry_at(p.take(k).drop_first()) by {
                let q = p.take(k);
                assert(q[0] == p[0]);
                assert(t.node_at(q) == c.unwrap().node_at(q.drop_first()));
            };
            assert(p.take(0) =~= Seq::<Seq<char>>::empty());
            lemma_entry_nil(t);
            match c {
                None => {
                    assert forall|k: int| 0 <= k < p.len() implies !(#[trigger] t.entry_at(
                        p.take(k),
                    ) matches Some(Entry::File(_))) by {
                        if k >= 1 {
                            let q = p.take(k);
                            assert(q[0] == p[0]);
                            assert(t.node_at(q) is None);
                        }
                    }
                },
                Some(child) => {
                    if p.len() == 1 {
                        assert(t.insert_result(p, false) is Ok);
                        assert forall|k: int| 0 <= k < p.len() implies !(#[trigger] t.entry_at(
                            p.take(k),
                        ) matches Some(Entry::File(_))) by {
                            assert(k == 0);
                        }
                    } else {
                        let pd = p.drop_first();
                        lemma_insert_file_ok(child, pd);
                        assert(forall|k: int|
                            1 <= k < p.len() ==> #[trigger] p.take(k).drop_first() =~= pd.take(
                                k - 1,
                            ));
                        if t.insert_result(p, false) is Ok {
                            assert forall|k: int| 0 <= k < p.len() implies !(#[trigger] t.entry_at(
                                p.take(k),
                            ) matches Some(Entry::File(_))) by {
                                if k >= 1 {
                                    assert(!(child.entry_at(pd.take(k - 1)) matches Some(
                                        Entry::File(_),
                                    )));
                                }
                            }
                        }
                        if forall|k: int|
                            0 <= k < p.len() ==> !(#[trigger] t.entry_at(p.take(k)) matches Some(
                                Entry::File(_),
                            )) {
                            assert forall|k2: int| 0 <= k2 < pd.len() implies !(
                            #[trigger] child.entry_at(pd.take(k2)) matches Some(Entry::File(_)))
                                by {
                                assert(t.entry_at(p.take(k2 + 1)) == child.entry_at(p.take(
                                    k2 + 1,
                                ).drop_first()));
                                assert(p.take(k2 + 1).drop_first() =~= pd.take(k2));
                                assert(!(t.entry_at(p.take(k2 + 1)) matches Some(Entry::File(_))));
                            }
                        }
                    }
                },
            }
        },
    }
}

/// Inserting a directory over a path that holds a file is refused.
pub proof fn lemma_insert_dir_over_file(t: FsLike, p: Seq<Seq<char>>)
    requires
        p.len() > 0,
        t.entry_at(p) matches Some(Entry::File(_)),
    ensures
        t.insert_result(p, true) is Err,
    decreases p.len(),
{
    match t {
        FsLike::FileLike { .. } => {},
        FsLike::DirectoryLike { children } => {
            let c = FsLike::child_lookup(children@, p[0]);
            let pd = p.drop_first();
            assert(t.node_at(p) == c.unwrap().node_at(pd));
            if p.len() > 1 {
                lemma_insert_dir_over_file(c.unwrap(), pd);
            }
        },
    }
}

/// Law (insert idempotence, touch): after one successful `touch` of a path,
/// a second `touch` of the same path also succeeds and writes nothing, so
/// by `insert`'s contract it leaves every entry unchanged.
pub proof fn lemma_touch_idempotent(t0: FsLike, t1: FsLike, p: Seq<Seq<char>>, node: FsLike)
    requires
        p.len() > 0,
        node is FileLike,
        node.file_data() == Seq::<u8>::empty(),
        t0.insert_result(p, false) is Ok,
        forall|q: Seq<Seq<char>>| #[trigger]
            t1.entry_at(q) == (if t0.insert_writes(p, false, Seq::empty()) {
                t0.entry_after_insert(p, node, q)
            } else {
                t0.entry_at(q)
            }),
    ensures
        t1.insert_result(p, false) is Ok,
        !t1.insert_writes(p, false, Seq::empty()),
{
    lemma_insert_file_ok(t0, p);
    lemma_insert_file_ok(t1, p);
    assert(begins_with(p, p)) by {
        assert(p.take(p.len() as int) =~= p);
    }
    if t0.insert_writes(p, false, Seq::empty()) {
        assert(t1.entry_at(p) == t0.entry_after_insert(p, node, p));
        assert(p.skip(p.len() as int) =~= Seq::<Seq<char>>::empty());
        lemma_entry_nil(node);
        assert(t1.entry_at(p) == Some(Entry::File(Seq::empty())));
        assert forall|k: int| 0 <= k < p.len() implies !(#[trigger] t1.entry_at(p.take(k))
            matches Some(Entry::File(_))) by {
            assert(begins_with(p, p.take(k)));
            assert(!begins_with(p.take(k), p)) by {
                if begins_with(p.take(k), p) {
                    assert(p.take(k).take(p.len() as int).len() == p.len());
                }
            }
            assert(t1.entry_at(p.take(k)) == Some(Entry::Dir));
        }
    } else {
        assert forall|k: int| 0 <= k < p.len() implies !(#[trigger] t1.entry_at(p.take(k))
            matches Some(Entry::File(_))) by {
            assert(t1.entry_at(p.take(k)) == t0.entry_at(p.take(k)));
        }
        assert(t1.entry_at(p) == t0.entry_at(p));
    }
}

/// Law (insert idempotence, directories): a `touch` of a path that already
/// names a directory succeeds and writes nothing, so by `insert`'s contract
/// the directory and everything under it keep their entries.
pub proof fn lemma_touch_existing_dir(t: FsLike, p: Seq<Seq<char>>)
    requires
        p.len() > 0,
        t.entry_at(p) == Some(Entry::Dir),
    ensures
        t.insert_result(p, false) is Ok,
        !t.insert_writes(p, false, Seq::empty()),
{
    lemma_insert_file_ok(t, p);
    lemma_resolving_prefixes_are_dirs(t, p);
}

/// Law (convergence of concurrent directory creation): the store's lock
/// serializes two sessions' `make_dir` calls in some order; whatever that
/// order, when both succeed, both directories stand in the final tree —
/// neither update is lost.
pub proof fn lemma_make_dir_converges(
    t0: FsLike,
    t1: FsLike,
    t2: FsLike,
    pa: Seq<Seq<char>>,
    pb: Seq<Seq<char>>,
    na: FsLike,
    nb: FsLike,
)
    requires
        pa.len() > 0,
        pb.len() > 0,
        na is DirectoryLike,
        nb is DirectoryLike,
        t0.insert_result(pa, true) is Ok,
        forall|q: Seq<Seq<char>>| #[trigger]
            t1.entry_at(q) == (if t0.insert_writes(pa, true, na.file_data()) {
                t0.entry_after_insert(pa, na, q)
            } else {
                t0.entry_at(q)
            }),
        t1.insert_result(pb, true) is Ok,
        forall|q: Seq<Seq<char>>| #[trigger]
            t2.entry_at(q) == (if t1.insert_writes(pb, true, nb.file_data()) {
                t1.entry_after_insert(pb, nb, q)
            } else {
                t1.entry_at(q)
            }),
    ensures
        t2.entry_at(pa) == Some(Entry::Dir),
        t2.entry_at(pb) == Some(Entry::Dir),
{
    lemma_dir_stands_after_insert(t0, t1, pa, na);
    lemma_dir_stands_after_insert(t1, t2, pb, nb);
    // the earlier directory survives the later insert
    if t1.insert_writes(pb, true, nb.file_data()) {
        assert(t2.entry_at(pa) == t1.entry_after_insert(pb, nb, pa));
        if begins_with(pa, pb) {
            // pb is a prefix of pa, so pb named a directory already and the
            // second insert could not have written
            assert(t1.node_at(pa) is Some);
            lemma_resolving_prefixes_are_dirs(t1, pa);
            if pb.len() < pa.len() {
                assert(pa.take(pb.len() as int) == pb);
                assert(t1.entry_at(pb) == Some(Entry::Dir));
            } else {
                crate::paths::lemma_begins_with_len(pa, pb);
                assert(t1.entry_at(pb) == Some(Entry::Dir));
            }
        } else if begins_with(pb, pa) {
            assert(t2.entry_at(pa) == Some(Entry::Dir));
        } else {
            assert(t2.entry_at(pa) == t1.entry_at(pa));
        }
    } else {
        assert(t2.entry_at(pa) == t1.entry_at(pa));
    }
}

/// After a successful directory insert, the path names a directory.
pub proof fn lemma_dir_stands_after_insert(t0: FsLike, t1: FsLike, p: Seq<Seq<char>>, n: FsLike)
    requires
        p.len() > 0,
        n is DirectoryLike,
        t0.insert_result(p, true) is Ok,
        forall|q: Seq<Seq<char>>| #[trigger]
            t1.entry_at(q) == (if t0.insert_writes(p, true, n.file_data()) {
                t0.entry_after_insert(p, n, q)
            } else {
                t0.entry_at(q)
            }),
    ensures
        t1.entry_at(p) == Some(Entry::Dir),
{
    assert(begins_with(p, p)) by {
        assert(p.take(p.len() as int) =~= p);
    }
    if t0.insert_writes(p, true, n.file_data()) {
        assert(t1.entry_at(p) == t0.entry_after_insert(p, n, p));
        assert(p.skip(p.len() as int) =~= Seq::<Seq<char>>::empty());
        lemma_entry_nil(n);
    } else {
        assert(t1.entry_at(p) == t0.entry_at(p));
        match t0.entry_at(p) {
            None => {},
            Some(Entry::Dir) => {},
            Some(Entry::File(_)) => {
                lemma_insert_dir_over_file(t0, p);
            },
        }
    }
}

} // verus!
