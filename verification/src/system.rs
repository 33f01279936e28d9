//! The shared store: the root tree node behind one coarse mutual-exclusion
//! lock. Every session operation takes the lock for the duration of exactly
//! one tree operation, so operations serialize; compound behaviours such as
//! a move are two lock acquisitions and are not atomic.

use vstd::prelude::*;
use vstd::rwlock::{RwLock, RwLockPredicate, WriteHandle};
use std::sync::Arc;
use crate::trie::FsLike;

verus! {

/// The lock invariant of the store: the tree is well-formed and its root is
/// a directory.
pub struct StorePred;

impl RwLockPredicate<FsLike> for StorePred {
    open spec fn inv(self, v: FsLike) -> bool {
        v.wf() && v is DirectoryLike
    }
}

/// The shared file system: a root node behind one lock. Cloned handles
/// refer to the same store, which is how sessions share it.
#[derive(Clone)]
pub struct FileSystem {
    lock: Arc<RwLock<FsLike, StorePred>>,
}

impl FileSystem {
    /// Wrap a root tree as a shared store.
    pub fn new(root: FsLike) -> (r: Self)
        requires
            root.wf(),
            root is DirectoryLike,
    {
        FileSystem { lock: Arc::new(RwLock::new(root, Ghost(StorePred))) }
    }

    /// Take the store's lock, yielding the tree it holds. The handle must
    /// be given back with [`WriteHandle::release_write`], with a tree that
    /// meets the store's invariant again.
    pub fn acquire(&self) -> (r: (FsLike, WriteHandle<'_, FsLike, StorePred>))
        ensures
            r.0.wf(),
            r.0 is DirectoryLike,
            forall|v: FsLike| #[trigger] r.1.rwlock().inv(v) == (v.wf() && v is DirectoryLike),
    {
        let (tree, handle) = self.lock.acquire_write();
        proof {
            assert(handle.rwlock().pred() == StorePred);
            assert(forall|v: FsLike| #[trigger] handle.rwlock().inv(v) == (v.wf()
                && v is DirectoryLike));
        }
        (tree, handle)
    }
}

} // verus!
