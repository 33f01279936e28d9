//! The per-user session: a working directory, a user label, and a handle on
//! the shared store. Every operation resolves its target against the
//! working directory (with the single-level `..` substitution of the path
//! algebra) and then drives one store operation under the store's lock.
//!
//! Contracts here are stated against the tree the operation observed while
//! it held the lock: another session may change the store between any two
//! operations, so no more can be promised of the shared state.

use vstd::prelude::*;
use crate::command::{split_parts, split_two, Command};
use crate::errors::FsError;
use crate::paths::{adjust_path, adjust_spec, join_path, joined, segments};
use crate::system::FileSystem;
use crate::trie::{Entry, FsLike};
use vstd::string::StringExecFns;
use vstd::string::StrSliceExecFns;
use vstd::utf8::{encode_utf8, valid_utf8};

verus! {

pub struct Session {
    working_dir: String,
    user: String,
    pub file_system: FileSystem,
}

impl Session {
    /// The session's working directory, as a path string.
    pub closed spec fn wd_view(self) -> Seq<char> {
        self.working_dir@
    }

    /// The session's user label.
    pub closed spec fn user_view(self) -> Seq<char> {
        self.user@
    }

    /// The store this session operates on.
    pub closed spec fn store(self) -> FileSystem {
        self.file_system
    }

    /// A session's working directory is always an absolute path.
    pub open spec fn wf(self) -> bool {
        self.wd_view().len() > 0 && self.wd_view()[0] == '/'
    }

    /// A new session for `user` over the shared store, at the root.
    pub fn new(user: String, fs: FileSystem) -> (r: Session)
        ensures
            r.wf(),
            r.wd_view() == seq!['/'],
            r.user_view() == user@,
            r.store() == fs,
    {
        proof {
            reveal_strlit("/");
            assert("/"@ =~= seq!['/']);
        }
        Session { working_dir: String::from_str("/"), user, file_system: fs }
    }

    /// The working directory the session's relative targets resolve
    /// against.
    pub fn current_dir(&self) -> (r: &str)
        ensures
            r@ == self.wd_view(),
    {
        self.working_dir.as_str()
    }

    /// The session's user label.
    pub fn current_user(&self) -> (r: &str)
        ensures
            r@ == self.user_view(),
    {
        self.user.as_str()
    }

    /// Apply the parent-marker substitution to a target, against this
    /// session's working directory.
    fn adjust_target(&self, target: &str) -> (r: Result<String, FsError>)
        ensures
            match r {
                Ok(s) => adjust_spec(self.wd_view(), target@) == Some(s@),
                Err(e) => e == FsError::InvalidPath && adjust_spec(self.wd_view(), target@)
                    is None,
            },
    {
        match adjust_path(self.working_dir.as_str(), target) {
            Some(s) => Ok(s),
            None => Err(FsError::InvalidPath),
        }
    }

    /// What changing directory answers and leaves as the working directory,
    /// as decided against one observed tree: the resolved target must be an
    /// existing directory.
    pub open spec fn change_dir_outcome(
        t: FsLike,
        wd: Seq<char>,
        adjusted: Seq<char>,
        r: Result<(), FsError>,
        new_wd: Seq<char>,
    ) -> bool {
        let dest = joined(wd, adjusted);
        match t.entry_at(segments(dest)) {
            Some(Entry::Dir) => r == Ok::<(), FsError>(()) && new_wd == dest,
            Some(Entry::File(_)) => r == Err::<(), FsError>(FsError::NotADirectory) && new_wd
                == wd,
            None => r == Err::<(), FsError>(FsError::NotFound) && new_wd == wd,
        }
    }

    /// Change the working directory to the resolved target, which must name
    /// an existing directory in the store.
    pub fn change_dir(&mut self, target: String) -> (r: Result<(), FsError>)
        requires
            old(self).wf(),
        ensures
            final(self).wf(),
            final(self).user_view() == old(self).user_view(),
            final(self).store() == old(self).store(),
            match adjust_spec(old(self).wd_view(), target@) {
                None => r == Err::<(), FsError>(FsError::InvalidPath) && final(self).wd_view()
                    == old(self).wd_view(),
                Some(a) => exists|t: FsLike| #[trigger]
                    t.wf() && t is DirectoryLike && Self::change_dir_outcome(
                        t,
                        old(self).wd_view(),
                        a,
                        r,
                        final(self).wd_view(),
                    ),
            },
    {
        let adjusted = match self.adjust_target(target.as_str()) {
            Err(e) => {
                return Err(e);
            },
            Ok(a) => a,
        };
        let dest = join_path(self.working_dir.as_str(), adjusted.as_str());
        let (tree, handle) = self.file_system.acquire();
        let ghost t_obs = tree;
        let verdict: u8 = {
            match tree.get(dest.as_str()) {
                None => 0,
                Some(node) => match node {
                    FsLike::DirectoryLike { .. } => 1,
                    FsLike::FileLike { .. } => 2,
                },
            }
        };
        handle.release_write(tree);
        proof {
            assert(dest@[0] == '/');
        }
        if verdict == 1 {
            self.working_dir = dest;
            Ok(())
        } else if verdict == 2 {
            Err(FsError::NotADirectory)
        } else {
            Err(FsError::NotFound)
        }
    }

    /// The names of the immediate children of the directory at `p`, in the
    /// order they were inserted; empty where `p` is not a directory.
    pub open spec fn dir_names(t: FsLike, p: Seq<Seq<char>>) -> Seq<Seq<char>> {
        match t.node_at(p) {
            Some(FsLike::DirectoryLike { children }) => children@.map_values(
                |c: (String, FsLike)| c.0@,
            ),
            _ => Seq::empty(),
        }
    }

    /// List the immediate child names of the working directory. A working
    /// directory that no longer resolves, or that a concurrent removal
    /// turned into something else, yields the empty listing rather than an
    /// error.
    pub fn list(&self) -> (r: Vec<String>)
        ensures
            exists|t: FsLike| #[trigger]
                t.wf() && t is DirectoryLike && r.deep_view() == Self::dir_names(
                    t,
                    segments(self.wd_view()),
                ),
    {
        let (tree, handle) = self.file_system.acquire();
        let ghost t_obs = tree;
        let mut out: Vec<String> = Vec::new();
        match tree.get(self.working_dir.as_str()) {
            None => {
                proof {
                    assert(out.deep_view() =~= Self::dir_names(t_obs, segments(self.wd_view())));
                }
            },
            Some(node) => {
                match node.children() {
                    None => {
                        proof {
                            assert(out.deep_view() =~= Self::dir_names(
                                t_obs,
                                segments(self.wd_view()),
                            ));
                        }
                    },
                    Some(children) => {
                        let n = children.len();
                        let mut i: usize = 0;
                        while i < n
                            invariant
                                n == children@.len(),
                                i <= n,
                                out.deep_view() =~= children@.map_values(
                                    |c: (String, FsLike)| c.0@,
                                ).take(i as int),
                            decreases n - i,
                        {
                            out.push(children[i].0.clone());
                            proof {
                                let names = children@.map_values(|c: (String, FsLike)| c.0@);
                                assert(names[i as int] == children@[i as int].0@);
                                assert(names.take(i as int + 1) =~= names.take(i as int).push(
                                    names[i as int],
                                ));
                            }
                            i += 1;
                        }
                        proof {
                            let names = children@.map_values(|c: (String, FsLike)| c.0@);
                            assert(names.take(n as int) =~= names);
                            assert(out.deep_view() =~= Self::dir_names(
                                t_obs,
                                segments(self.wd_view()),
                            ));
                        }
                    },
                }
            },
        }
        handle.release_write(tree);
        out
    }

    /// Create a directory at the resolved target, creating any missing
    /// ancestors.
    pub fn make_dir(&mut self, target: String) -> (r: Result<(), FsError>)
        requires
            old(self).wf(),
        ensures
            *final(self) == *old(self),
            match adjust_spec(old(self).wd_view(), target@) {
                None => r == Err::<(), FsError>(FsError::InvalidPath),
                Some(a) => exists|t: FsLike| #[trigger]
                    t.wf() && t is DirectoryLike && r == t.insert_result(
                        segments(joined(old(self).wd_view(), a)),
                        true,
                    ),
            },
    {
        let adjusted = match self.adjust_target(target.as_str()) {
            Err(e) => {
                return Err(e);
            },
            Ok(a) => a,
        };
        let dest = join_path(self.working_dir.as_str(), adjusted.as_str());
        let (mut tree, handle) = self.file_system.acquire();
        let ghost t_obs = tree;
        let r = tree.insert(dest.as_str(), FsLike::new());
        proof {
            assert(dest@[0] == '/');
        }
        handle.release_write(tree);
        r
    }

    /// Remove the node at the resolved target with its whole subtree.
    pub fn remove(&mut self, target: String) -> (r: Result<(), FsError>)
        requires
            old(self).wf(),
        ensures
            *final(self) == *old(self),
            match adjust_spec(old(self).wd_view(), target@) {
                None => r == Err::<(), FsError>(FsError::InvalidPath),
                Some(a) => exists|t: FsLike| #[trigger]
                    t.wf() && t is DirectoryLike && r == t.remove_result(
                        segments(joined(old(self).wd_view(), a)),
                    ),
            },
    {
        let adjusted = match self.adjust_target(target.as_str()) {
            Err(e) => {
                return Err(e);
            },
            Ok(a) => a,
        };
        let dest = join_path(self.working_dir.as_str(), adjusted.as_str());
        let (mut tree, handle) = self.file_system.acquire();
        let ghost t_obs = tree;
        let r = tree.remove(dest.as_str());
        handle.release_write(tree);
        r
    }

    /// Create an empty file at the resolved target. Where a file or a
    /// directory already stands there, nothing changes.
    pub fn touch(&mut self, target: String) -> (r: Result<(), FsError>)
        requires
            old(self).wf(),
        ensures
            *final(self) == *old(self),
            match adjust_spec(old(self).wd_view(), target@) {
                None => r == Err::<(), FsError>(FsError::InvalidPath),
                Some(a) => exists|t: FsLike| #[trigger]
                    t.wf() && t is DirectoryLike && r == t.insert_result(
                        segments(joined(old(self).wd_view(), a)),
                        false,
                    ),
            },
    {
        let adjusted = match self.adjust_target(target.as_str()) {
            Err(e) => {
                return Err(e);
            },
            Ok(a) => a,
        };
        let dest = join_path(self.working_dir.as_str(), adjusted.as_str());
        let (mut tree, handle) = self.file_system.acquire();
        let ghost t_obs = tree;
        let r = tree.insert(dest.as_str(), FsLike::FileLike { data: Vec::new() });
        proof {
            assert(dest@[0] == '/');
        }
        handle.release_write(tree);
        r
    }

    /// Read the bytes of the file at the resolved target.
    pub fn read_file(&self, target: String) -> (r: Result<Vec<u8>, FsError>)
        requires
            self.wf(),
        ensures
            match adjust_spec(self.wd_view(), target@) {
                None => r matches Err(e) && e == FsError::InvalidPath,
                Some(a) => exists|t: FsLike| #[trigger]
                    t.wf() && t is DirectoryLike && (match t.entry_at(
                        segments(joined(self.wd_view(), a)),
                    ) {
                        Some(Entry::File(d)) => r matches Ok(v) && v@ == d,
                        Some(Entry::Dir) => r matches Err(e) && e == FsError::NotAFile,
                        None => r matches Err(e) && e == FsError::NotFound,
                    }),
            },
    {
        let adjusted = match self.adjust_target(target.as_str()) {
            Err(e) => {
                return Err(e);
            },
            Ok(a) => a,
        };
        let dest = join_path(self.working_dir.as_str(), adjusted.as_str());
        let (tree, handle) = self.file_system.acquire();
        let ghost t_obs = tree;
        let (verdict, bytes): (u8, Vec<u8>) = {
            match tree.get(dest.as_str()) {
                None => (0, Vec::new()),
                Some(node) => match node {
                    FsLike::DirectoryLike { .. } => (1, Vec::new()),
                    FsLike::FileLike { data } => (2, copy_bytes(data)),
                },
            }
        };
        handle.release_write(tree);
        if verdict == 2 {
            Ok(bytes)
        } else if verdict == 1 {
            Err(FsError::NotAFile)
        } else {
            Err(FsError::NotFound)
        }
    }

    /// Write `content` as the file at the resolved target, creating missing
    /// ancestors and overwriting an existing file.
    pub fn write_file(&self, target: String, content: String) -> (r: Result<(), FsError>)
        requires
            self.wf(),
        ensures
            match adjust_spec(self.wd_view(), target@) {
                None => r == Err::<(), FsError>(FsError::InvalidPath),
                Some(a) => exists|t: FsLike| #[trigger]
                    t.wf() && t is DirectoryLike && r == t.insert_result(
                        segments(joined(self.wd_view(), a)),
                        false,
                    ),
            },
    {
        let adjusted = match self.adjust_target(target.as_str()) {
            Err(e) => {
                return Err(e);
            },
            Ok(a) => a,
        };
        let dest = join_path(self.working_dir.as_str(), adjusted.as_str());
        let data = content.as_str().as_bytes_vec();
        let (mut tree, handle) = self.file_system.acquire();
        let ghost t_obs = tree;
        let r = tree.insert(dest.as_str(), FsLike::FileLike { data });
        proof {
            assert(dest@[0] == '/');
        }
        handle.release_write(tree);
        r
    }

    /// What copying answers, as decided against one observed tree: the
    /// source must resolve to a file (directory copy is unsupported), and
    /// the duplicate is inserted at the destination under the usual insert
    /// rules.
    pub open spec fn copy_outcome(
        t: FsLike,
        wd: Seq<char>,
        src: Seq<char>,
        dst: Seq<char>,
    ) -> Result<(), FsError> {
        match t.entry_at(segments(joined(wd, src))) {
            None => Err(FsError::NotFound),
            Some(Entry::Dir) => Err(FsError::NotAFile),
            Some(Entry::File(_)) => t.insert_result(segments(joined(wd, dst)), false),
        }
    }

    /// Copy the file at the resolved `target` to the resolved
    /// `destination`.
    pub fn copy(&mut self, target: String, destination: String) -> (r: Result<(), FsError>)
        requires
            old(self).wf(),
        ensures
            *final(self) == *old(self),
            match adjust_spec(old(self).wd_view(), target@) {
                None => r == Err::<(), FsError>(FsError::InvalidPath),
                Some(at) => match adjust_spec(old(self).wd_view(), destination@) {
                    None => r == Err::<(), FsError>(FsError::InvalidPath),
                    Some(ad) => exists|t: FsLike| #[trigger]
                        t.wf() && t is DirectoryLike && r == Self::copy_outcome(
                            t,
                            old(self).wd_view(),
                            at,
                            ad,
                        ),
                },
            },
    {
        let adjusted_target = match self.adjust_target(target.as_str()) {
            Err(e) => {
                return Err(e);
            },
            Ok(a) => a,
        };
        let adjusted_destination = match self.adjust_target(destination.as_str()) {
            Err(e) => {
                return Err(e);
            },
            Ok(a) => a,
        };
        let src = join_path(self.working_dir.as_str(), adjusted_target.as_str());
        let dst = join_path(self.working_dir.as_str(), adjusted_destination.as_str());
        let (mut tree, handle) = self.file_system.acquire();
        let ghost t_obs = tree;
        let (verdict, bytes): (u8, Vec<u8>) = {
            match tree.get(src.as_str()) {
                None => (0, Vec::new()),
                Some(node) => match node {
                    FsLike::DirectoryLike { .. } => (1, Vec::new()),
                    FsLike::FileLike { data } => (2, copy_bytes(data)),
                },
            }
        };
        if verdict == 2 {
            let r = tree.insert(dst.as_str(), FsLike::FileLike { data: bytes });
            proof {
                assert(dst@[0] == '/');
            }
            handle.release_write(tree);
            r
        } else {
            handle.release_write(tree);
            if verdict == 1 {
                Err(FsError::NotAFile)
            } else {
                Err(FsError::NotFound)
            }
        }
    }


    /// List the immediate child names of the (resolved) working directory
    /// that contain `target` as a substring; no matches is an empty list,
    /// not an error.
    pub fn find_local(&self, target: String) -> (r: Result<Vec<String>, FsError>)
        requires
            self.wf(),
        ensures
            match adjust_spec(self.wd_view(), self.wd_view()) {
                None => r matches Err(e) && e == FsError::InvalidPath,
                Some(a) => exists|t: FsLike| #[trigger]
                    t.wf() && t is DirectoryLike && (match t.entry_at(segments(a)) {
                        Some(Entry::Dir) => r matches Ok(v) && v.deep_view() == matching_names(
                            Self::dir_names(t, segments(a)),
                            target@,
                        ),
                        Some(Entry::File(_)) => r matches Err(e) && e == FsError::NotADirectory,
                        None => r matches Err(e) && e == FsError::NotFound,
                    }),
            },
    {
        let dir = match self.adjust_target(self.working_dir.as_str()) {
            Err(e) => {
                return Err(e);
            },
            Ok(a) => a,
        };
        let (tree, handle) = self.file_system.acquire();
        let ghost t_obs = tree;
        let mut out: Vec<String> = Vec::new();
        let verdict: u8 = {
            match tree.get(dir.as_str()) {
                None => 0,
                Some(node) => match node.children() {
                    None => 1,
                    Some(children) => {
                        let ghost names = children@.map_values(|c: (String, FsLike)| c.0@);
                        let n = children.len();
                        let mut i: usize = 0;
                        while i < n
                            invariant
                                n == children@.len(),
                                i <= n,
                                names == children@.map_values(|c: (String, FsLike)| c.0@),
                                out.deep_view() == matching_names(names.take(i as int), target@),
                            decreases n - i,
                        {
                            proof {
                                let t2 = names.take(i as int + 1);
                                assert(t2.drop_last() =~= names.take(i as int));
                                assert(t2.last() == names[i as int]);
                                assert(names[i as int] == children@[i as int].0@);
                            }
                            if contains_str(children[i].0.as_str(), target.as_str()) {
                                out.push(children[i].0.clone());
                                proof {
                                    assert(out.deep_view() =~= matching_names(
                                        names.take(i as int + 1),
                                        target@,
                                    ));
                                }
                            } else {
                                proof {
                                    assert(out.deep_view() =~= matching_names(
                                        names.take(i as int + 1),
                                        target@,
                                    ));
                                }
                            }
                            i += 1;
                        }
                        proof {
                            assert(names.take(n as int) =~= names);
                        }
                        2
                    },
                },
            }
        };
        handle.release_write(tree);
        if verdict == 2 {
            Ok(out)
        } else if verdict == 1 {
            Err(FsError::NotADirectory)
        } else {
            Err(FsError::NotFound)
        }
    }


    /// Serve one decoded command: run the matching operation and render its
    /// result as the response payload. A success with no output is the
    /// empty string; errors answer with their descriptive text; malformed
    /// two-argument commands and unknown commands answer with fixed texts
    /// rather than failing.
    pub fn handle(&mut self, cmd: Command) -> (resp: String)
        requires
            old(self).wf(),
        ensures
            final(self).wf(),
            match cmd {
                Command::UNKNOWN => *final(self) == *old(self) && resp@ == "Unknown Command"@,
                Command::PWD => *final(self) == *old(self) && resp@ == old(self).wd_view(),
                Command::WHO => *final(self) == *old(self) && resp@ == old(self).user_view(),
                Command::LS => *final(self) == *old(self) && exists|t: FsLike| #[trigger]
                    t.wf() && t is DirectoryLike && resp@ == joined_list(
                        Self::dir_names(t, segments(old(self).wd_view())),
                        " | "@,
                    ),
                Command::CD(target) => final(self).user_view() == old(self).user_view()
                    && final(self).store() == old(self).store() && (match adjust_spec(
                    old(self).wd_view(),
                    target@,
                ) {
                    None => resp@ == FsError::InvalidPath.message_view() && final(self).wd_view()
                        == old(self).wd_view(),
                    Some(a) => exists|t: FsLike, rr: Result<(), FsError>|
                        #![trigger t.wf(), result_msg(rr)]
                        t.wf() && t is DirectoryLike && Self::change_dir_outcome(
                            t,
                            old(self).wd_view(),
                            a,
                            rr,
                            final(self).wd_view(),
                        ) && resp@ == result_msg(rr),
                }),
                Command::MKDIR(target) => *final(self) == *old(self) && (match adjust_spec(
                    old(self).wd_view(),
                    target@,
                ) {
                    None => resp@ == FsError::InvalidPath.message_view(),
                    Some(a) => exists|t: FsLike| #[trigger]
                        t.wf() && t is DirectoryLike && resp@ == result_msg(
                            t.insert_result(segments(joined(old(self).wd_view(), a)), true),
                        ),
                }),
                Command::RM(target) => *final(self) == *old(self) && (match adjust_spec(
                    old(self).wd_view(),
                    target@,
                ) {
                    None => resp@ == FsError::InvalidPath.message_view(),
                    Some(a) => exists|t: FsLike| #[trigger]
                        t.wf() && t is DirectoryLike && resp@ == result_msg(
                            t.remove_result(segments(joined(old(self).wd_view(), a))),
                        ),
                }),
                Command::TOUCH(target) => *final(self) == *old(self) && (match adjust_spec(
                    old(self).wd_view(),
                    target@,
                ) {
                    None => resp@ == FsError::InvalidPath.message_view(),
                    Some(a) => exists|t: FsLike| #[trigger]
                        t.wf() && t is DirectoryLike && resp@ == result_msg(
                            t.insert_result(segments(joined(old(self).wd_view(), a)), false),
                        ),
                }),
                Command::READ(target) => *final(self) == *old(self) && (match adjust_spec(
                    old(self).wd_view(),
                    target@,
                ) {
                    None => resp@ == FsError::InvalidPath.message_view(),
                    Some(a) => exists|t: FsLike| #[trigger]
                        t.wf() && t is DirectoryLike && (match t.entry_at(
                            segments(joined(old(self).wd_view(), a)),
                        ) {
                            Some(Entry::File(d)) => (valid_utf8(d) ==> encode_utf8(resp@) == d) && (
                            !valid_utf8(d) ==> resp@ == "Error Reading out bytes"@),
                            Some(Entry::Dir) => resp@ == FsError::NotAFile.message_view(),
                            None => resp@ == FsError::NotFound.message_view(),
                        }),
                }),
                Command::WRITE(argument) => *final(self) == *old(self) && (match split_parts(
                    argument@,
                ) {
                    None => resp@ == FsError::MalformedArgument.message_view(),
                    Some(parts) => match adjust_spec(old(self).wd_view(), parts.0) {
                        None => resp@ == FsError::InvalidPath.message_view(),
                        Some(a) => exists|t: FsLike| #[trigger]
                            t.wf() && t is DirectoryLike && resp@ == result_msg(
                                t.insert_result(segments(joined(old(self).wd_view(), a)), false),
                            ),
                    },
                }),
                Command::CP(argument) => *final(self) == *old(self) && (match split_parts(
                    argument@,
                ) {
                    None => resp@ == FsError::MalformedArgument.message_view(),
                    Some(parts) => match adjust_spec(old(self).wd_view(), parts.0) {
                        None => resp@ == FsError::InvalidPath.message_view(),
                        Some(at) => match adjust_spec(old(self).wd_view(), parts.1) {
                            None => resp@ == FsError::InvalidPath.message_view(),
                            Some(ad) => exists|t: FsLike| #[trigger]
                                t.wf() && t is DirectoryLike && resp@ == result_msg(
                                    Self::copy_outcome(t, old(self).wd_view(), at, ad),
                                ),
                        },
                    },
                }),
                Command::MV(argument) => *final(self) == *old(self) && (match split_parts(
                    argument@,
                ) {
                    None => resp@ == FsError::MalformedArgument.message_view(),
                    Some(parts) => match adjust_spec(old(self).wd_view(), parts.0) {
                        None => resp@ == FsError::InvalidPath.message_view(),
                        Some(at) => match adjust_spec(old(self).wd_view(), parts.1) {
                            None => resp@ == FsError::InvalidPath.message_view(),
                            Some(ad) => exists|t1: FsLike| #[trigger]
                                t1.wf() && t1 is DirectoryLike && (match Self::copy_outcome(
                                    t1,
                                    old(self).wd_view(),
                                    at,
                                    ad,
                                ) {
                                    Err(e) => resp@ == e.message_view(),
                                    Ok(()) => exists|t2: FsLike| #[trigger]
                                        t2.wf() && t2 is DirectoryLike && resp@ == result_msg(
                                            t2.remove_result(
                                                segments(joined(old(self).wd_view(), at)),
                                            ),
                                        ),
                                }),
                        },
                    },
                }),
                Command::FIND(pattern) => *final(self) == *old(self) && (match adjust_spec(
                    old(self).wd_view(),
                    old(self).wd_view(),
                ) {
                    None => resp@ == FsError::InvalidPath.message_view(),
                    Some(a) => exists|t: FsLike| #[trigger]
                        t.wf() && t is DirectoryLike && (match t.entry_at(segments(a)) {
                            Some(Entry::Dir) => ({
                                let names = matching_names(
                                    Self::dir_names(t, segments(a)),
                                    pattern@,
                                );
                                resp@ == (if names.len() == 0 {
                                    "pattern not found"@
                                } else {
                                    joined_list(names, " | "@)
                                })
                            }),
                            Some(Entry::File(_)) => resp@ == FsError::NotADirectory.message_view(),
                            None => resp@ == FsError::NotFound.message_view(),
                        }),
                }),
            },
    {
        match cmd {
            Command::UNKNOWN => "Unknown Command".to_owned(),
            Command::PWD => self.working_dir.clone(),
            Command::WHO => self.user.clone(),
            Command::LS => {
                let names = self.list();
                render_list(&names, " | ")
            },
            Command::CD(target) => {
                let ghost wd0 = self.wd_view();
                let ghost tgt = target@;
                let r = self.change_dir(target);
                let resp = match r {
                    Ok(()) => String::new(),
                    Err(e) => e.message().to_owned(),
                };
                proof {
                    if adjust_spec(wd0, tgt) is Some {
                        let a = adjust_spec(wd0, tgt).unwrap();
                        let t = choose|t: FsLike| #[trigger]
                            t.wf() && t is DirectoryLike && Self::change_dir_outcome(
                                t,
                                wd0,
                                a,
                                r,
                                self.wd_view(),
                            );
                        assert(t.wf() && t is DirectoryLike && Self::change_dir_outcome(
                            t,
                            wd0,
                            a,
                            r,
                            self.wd_view(),
                        ) && resp@ == result_msg(r));
                    }
                }
                resp
            },
            Command::MKDIR(target) => {
                match self.make_dir(target) {
                    Ok(()) => String::new(),
                    Err(e) => e.message().to_owned(),
                }
            },
            Command::RM(target) => {
                match self.remove(target) {
                    Ok(()) => String::new(),
                    Err(e) => e.message().to_owned(),
                }
            },
            Command::TOUCH(target) => {
                match self.touch(target) {
                    Ok(()) => String::new(),
                    Err(e) => e.message().to_owned(),
                }
            },
            Command::READ(target) => {
                match self.read_file(target) {
                    Ok(v) => match bytes_to_string(v) {
                        Some(text) => text,
                        None => "Error Reading out bytes".to_owned(),
                    },
                    Err(e) => e.message().to_owned(),
                }
            },
            Command::WRITE(argument) => {
                match split_two(argument.as_str()) {
                    None => FsError::MalformedArgument.message().to_owned(),
                    Some(parts) => match self.write_file(parts.0, parts.1) {
                        Ok(()) => String::new(),
                        Err(e) => e.message().to_owned(),
                    },
                }
            },
            Command::CP(argument) => {
                match split_two(argument.as_str()) {
                    None => FsError::MalformedArgument.message().to_owned(),
                    Some(parts) => match self.copy(parts.0, parts.1) {
                        Ok(()) => String::new(),
                        Err(e) => e.message().to_owned(),
                    },
                }
            },
            Command::MV(argument) => {
                match split_two(argument.as_str()) {
                    None => FsError::MalformedArgument.message().to_owned(),
                    Some(parts) => match self.mv(parts.0, parts.1) {
                        Ok(()) => String::new(),
                        Err(e) => e.message().to_owned(),
                    },
                }
            },
            Command::FIND(pattern) => {
                match self.find_local(pattern) {
                    Ok(v) => {
                        if v.len() == 0 {
                            "pattern not found".to_owned()
                        } else {
                            render_list(&v, " | ")
                        }
                    },
                    Err(e) => e.message().to_owned(),
                }
            },
        }
    }

    /// Move the file at the resolved `target` to the resolved
    /// `destination`: a copy followed by a removal of the source, under two
    /// separate lock acquisitions (not atomic with respect to other
    /// sessions).
    pub fn mv(&mut self, target: String, destination: String) -> (r: Result<(), FsError>)
        requires
            old(self).wf(),
        ensures
            *final(self) == *old(self),
            match adjust_spec(old(self).wd_view(), target@) {
                None => r == Err::<(), FsError>(FsError::InvalidPath),
                Some(at) => match adjust_spec(old(self).wd_view(), destination@) {
                    None => r == Err::<(), FsError>(FsError::InvalidPath),
                    Some(ad) => exists|t1: FsLike| #[trigger]
                        t1.wf() && t1 is DirectoryLike && (match Self::copy_outcome(
                            t1,
                            old(self).wd_view(),
                            at,
                            ad,
                        ) {
                            Err(e) => r == Err::<(), FsError>(e),
                            Ok(()) => exists|t2: FsLike| #[trigger]
                                t2.wf() && t2 is DirectoryLike && r == t2.remove_result(
                                    segments(joined(old(self).wd_view(), at)),
                                ),
                        }),
                },
            },
    {
        match self.copy(target.clone(), destination) {
            Err(e) => Err(e),
            Ok(()) => self.remove(target),
        }
    }
}


/// Does `needle` occur in `hay` as a contiguous run of characters?
pub open spec fn contains_sub(hay: Seq<char>, needle: Seq<char>) -> bool {
    exists|k: int|
        0 <= k && k + needle.len() <= hay.len() && #[trigger] hay.subrange(k, k + needle.len())
            == needle
}

/// The names among `names` that contain `pattern`, in order.
pub open spec fn matching_names(names: Seq<Seq<char>>, pattern: Seq<char>) -> Seq<Seq<char>>
    decreases names.len(),
{
    if names.len() == 0 {
        Seq::empty()
    } else {
        matching_names(names.drop_last(), pattern) + (if contains_sub(names.last(), pattern) {
            seq![names.last()]
        } else {
            Seq::<Seq<char>>::empty()
        })
    }
}

/// Substring search, verified against `contains_sub`.
fn contains_str(hay: &str, needle: &str) -> (r: bool)
    ensures
        r == contains_sub(hay@, needle@),
{
    let nh = hay.unicode_len();
    let nn = needle.unicode_len();
    if nn > nh {
        proof {
            assert(!contains_sub(hay@, needle@));
        }
        return false;
    }
    let mut k: usize = 0;
    while k <= nh - nn
        invariant_except_break
            nh == hay@.len(),
            nn == needle@.len(),
            nn <= nh,
            k <= nh - nn + 1,
            forall|k2: int|
                0 <= k2 < k ==> #[trigger] hay@.subrange(k2, k2 + nn) != needle@,
        ensures
            forall|k2: int|
                0 <= k2 && k2 + nn <= nh ==> #[trigger] hay@.subrange(k2, k2 + nn) != needle@,
        decreases nh - nn + 1 - k,
    {
        let mut j: usize = 0;
        let mut matched = true;
        while j < nn
            invariant
                nh == hay@.len(),
                nn == needle@.len(),
                k + nn <= nh,
                j <= nn,
                matched ==> forall|m: int| 0 <= m < j ==> hay@[k + m] == needle@[m],
                !matched ==> hay@.subrange(k as int, k as int + nn) != needle@,
            decreases nn - j,
        {
            if hay.get_char(k + j) != needle.get_char(j) {
                proof {
                    assert(hay@.subrange(k as int, k as int + nn)[j as int] == hay@[k + j]);
                }
                matched = false;
            }
            j += 1;
        }
        if matched {
            proof {
                assert(hay@.subrange(k as int, k as int + nn) =~= needle@);
            }
            return true;
        }
        if k == nh - nn {
            proof {
                assert forall|k2: int| 0 <= k2 && k2 + nn <= nh implies #[trigger] hay@.subrange(
                    k2,
                    k2 + nn,
                ) != needle@ by {
                    if k2 == k as int {
                        assert(hay@.subrange(k as int, k as int + nn) != needle@);
                    }
                }
            }
            break;
        }
        k += 1;
    }
    false
}


/// The response text of an operation's result: empty for success, the
/// error's descriptive text otherwise.
pub open spec fn result_msg(r: Result<(), FsError>) -> Seq<char> {
    match r {
        Ok(_) => Seq::empty(),
        Err(e) => e.message_view(),
    }
}

/// The names joined by a separator, as a listing is rendered.
pub open spec fn joined_list(names: Seq<Seq<char>>, sep: Seq<char>) -> Seq<char>
    decreases names.len(),
{
    if names.len() == 0 {
        Seq::empty()
    } else if names.len() == 1 {
        names[0]
    } else {
        joined_list(names.drop_last(), sep) + sep + names.last()
    }
}

/// Render a listing, separator between the names.
fn render_list(names: &Vec<String>, sep: &str) -> (r: String)
    ensures
        r@ == joined_list(names.deep_view(), sep@),
{
    let ghost all = names.deep_view();
    let n = names.len();
    let mut out = String::new();
    let mut k: usize = 0;
    while k < n
        invariant
            n == names@.len(),
            k <= n,
            all == names.deep_view(),
            out@ == joined_list(all.take(k as int), sep@),
        decreases n - k,
    {
        if k > 0 {
            out.append(sep);
        }
        out.append(names[k].as_str());
        proof {
            let t2 = all.take(k as int + 1);
            assert(t2.drop_last() =~= all.take(k as int));
            assert(t2.last() == all[k as int]);
            assert(out@ == joined_list(t2, sep@));
        }
        k += 1;
    }
    proof {
        assert(all.take(n as int) =~= all);
    }
    out
}

/// Relies on `String::from_utf8`: it accepts exactly the valid UTF-8 byte
/// sequences and yields the string those bytes spell.
#[verifier::external_body]
fn bytes_to_string(v: Vec<u8>) -> (r: Option<String>)
    ensures
        match r {
            Some(s) => valid_utf8(v@) && encode_utf8(s@) == v@,
            None => !valid_utf8(v@),
        },
{
    match String::from_utf8(v) {
        Ok(s) => Some(s),
        Err(_) => None,
    }
}

/// A verified byte-for-byte duplicate of a buffer.
fn copy_bytes(v: &Vec<u8>) -> (r: Vec<u8>)
    ensures
        r@ == v@,
{
    let n = v.len();
    let mut out: Vec<u8> = Vec::new();
    let mut i: usize = 0;
    while i < n
        invariant
            n == v@.len(),
            i <= n,
            out@ =~= v@.take(i as int),
        decreases n - i,
    {
        out.push(v[i]);
        i += 1;
    }
    proof {
        assert(v@.take(n as int) =~= v@);
    }
    out
}

} // verus!
