//! The file system as a value: what every operation of the engine returns
//! and what it leaves behind, stated over the meaning of the stored records.
use vstd::prelude::*;

use crate::attr::{
    access_allowed, access_for, access_mask, attr_set, creation_mode, may_set, owner_set, Access,
    Action, FileAttr, FileType, SetFileAttr, Timestamp, ROOT_INODE,
};
use crate::content::{FileView, DEFAULT_CHUNK_SIZE};
use crate::dir::{first_named, lemma_position, position, sort_entries, Entry};
use crate::error::FsError;
use crate::names::{is_dot, is_dot_dot, valid_name};
use crate::store::StoreView;

verus! {

/// Largest number of entries of one directory.
pub const MAX_DIR_ENTRIES: u64 = 0xffff_ffff;

/// An open file: the handle's number, the inode, what the handle may do,
/// and whether it has written since it was last flushed.
#[derive(Clone, Copy, Debug, PartialEq, Eq, Structural)]
pub struct Handle {
    pub id: u64,
    pub ino: u64,
    pub read: bool,
    pub write: bool,
    pub dirty: bool,
}

/// The state of a mounted file system.
#[verifier::ext_equal]
pub struct FsView {
    pub store: StoreView,
    /// The open files, in the order in which they were opened.
    pub handles: Seq<Handle>,
    /// The directory through which an inode was last reached.
    pub parents: Map<u64, u64>,
    /// The number of the next inode; `u64::MAX` when none is left.
    pub next_ino: u64,
    /// The number of the next handle; `u64::MAX` when none is left.
    pub next_handle: u64,
    /// The time that operations stamp on what they change.
    pub clock: Timestamp,
    pub suid_support: bool,
    /// The chunk size of files that are made anew.
    pub chunk_size: u32,
}

/// Whether `i` is the place of the handle with number `id`.
pub open spec fn handle_place(handles: Seq<Handle>, id: u64, i: int) -> bool {
    &&& 0 <= i < handles.len()
    &&& handles[i].id == id
    &&& forall|j: int| 0 <= j < i ==> (#[trigger] handles[j]).id != id
}

/// The place of the handle with number `id`, if it is open.
pub open spec fn handle_index(handles: Seq<Handle>, id: u64) -> Option<int> {
    if exists|i: int| handle_place(handles, id, i) {
        Some(choose|i: int| handle_place(handles, id, i))
    } else {
        None
    }
}

/// Whether some handle is open on the inode.
pub open spec fn any_open(handles: Seq<Handle>, ino: u64) -> bool {
    exists|i: int| 0 <= i < handles.len() && (#[trigger] handles[i]).ino == ino
}

/// The name `.`.
pub open spec fn dot() -> Seq<u8> {
    seq![0x2eu8]
}

/// The name `..`.
pub open spec fn dot_dot() -> Seq<u8> {
    seq![0x2eu8, 0x2eu8]
}

/// The attributes of the root directory of a new file system.
pub open spec fn root_attr() -> FileAttr {
    let epoch = Timestamp { secs: 0, nanos: 0 };
    FileAttr {
        ino: ROOT_INODE,
        size: 0,
        blocks: 0,
        atime: epoch,
        mtime: epoch,
        ctime: epoch,
        crtime: epoch,
        kind: FileType::Directory,
        perm: 0o755,
        nlink: 2,
        uid: 0,
        gid: 0,
        rdev: 0,
        blksize: 0,
        flags: 0,
    }
}

/// The state of a file system that was just mounted on a store: nothing is
/// open, the clock stands at the epoch, and files are made without the
/// set-user-id bits and with the default chunk size.
pub open spec fn mounted(store: StoreView, next_ino: u64) -> FsView {
    FsView {
        store,
        handles: Seq::empty(),
        parents: Map::<u64, u64>::empty().insert(ROOT_INODE, ROOT_INODE),
        next_ino,
        next_handle: 1,
        clock: Timestamp { secs: 0, nanos: 0 },
        suid_support: false,
        chunk_size: DEFAULT_CHUNK_SIZE,
    }
}

/// Where an entry has the name, there is a first one that has it.
pub proof fn lemma_named(es: Seq<Entry>, name: Seq<u8>, j: int)
    requires
        0 <= j < es.len(),
        es[j].name == name,
    ensures
        position(es, name) is Some,
    decreases j,
{
    if exists|k: int| 0 <= k < j && (#[trigger] es[k]).name == name {
        let k = choose|k: int| 0 <= k < j && (#[trigger] es[k]).name == name;
        lemma_named(es, name, k);
    } else {
        assert(first_named(es, name, j));
        lemma_position(es, name, j);
    }
}

impl FsView {
    /// Whether the number of the next inode is above every inode that has a
    /// record or a content, unless no number is left.
    pub open spec fn fresh(self) -> bool {
        &&& forall|k: u64| #[trigger]
            self.store.attrs.contains_key(k) ==> k < self.next_ino || self.next_ino == u64::MAX
        &&& forall|k: u64| #[trigger]
            self.store.nodes.contains_key(k) ==> k < self.next_ino || self.next_ino == u64::MAX
    }

    /// The directory through which an inode was last reached; the root for
    /// one that was not reached yet.
    pub open spec fn parent_of(self, ino: u64) -> u64 {
        if self.parents.contains_key(ino) {
            self.parents[ino]
        } else {
            ROOT_INODE
        }
    }

    /// The attributes of a directory; `NotADirectory` for another inode.
    pub open spec fn dir(self, ino: u64) -> Result<FileAttr, FsError> {
        match self.store.attr(ino) {
            Ok(a) => if a.kind == FileType::Directory {
                Ok(a)
            } else {
                Err(FsError::NotADirectory)
            },
            Err(e) => Err(e),
        }
    }

    /// The attributes and the entries of a directory.
    pub open spec fn open_dir(self, ino: u64) -> Result<(FileAttr, Seq<Entry>), FsError> {
        match self.dir(ino) {
            Ok(a) => match self.store.entries(ino) {
                Ok(es) => Ok((a, es)),
                Err(e) => Err(e),
            },
            Err(e) => Err(e),
        }
    }

    /// The attributes of a directory that has changed and now has `count`
    /// entries.
    pub open spec fn touched_dir(self, a: FileAttr, count: int) -> FileAttr {
        FileAttr { size: count as u64, mtime: self.clock, ctime: self.clock, ..a }
    }

    /// The state with another store.
    pub open spec fn with_store(self, store: StoreView) -> FsView {
        FsView { store, ..self }
    }

    /// `read_attr`: the attributes of an inode.
    pub open spec fn read_attr(self, ino: u64) -> Result<FileAttr, FsError> {
        self.store.attr(ino)
    }

    /// `permit`: whether the caller `uid`/`gid` may do to the inode what it
    /// wants to, by the classical rule; `PermissionDenied` where it may not.
    pub open spec fn permit(self, ino: u64, uid: u32, gid: u32, access: Access) -> Result<
        (),
        FsError,
    > {
        match self.store.attr(ino) {
            Err(e) => Err(e),
            Ok(a) => if access_allowed(a, uid, gid, access_mask(access)) {
                Ok(())
            } else {
                Err(FsError::PermissionDenied)
            },
        }
    }

    /// `authorize`: whether the caller may do what it asks. A lookup needs
    /// to search the directory, making, removing and renaming need to
    /// change the directories they name, opening needs the access it asks
    /// for, listing needs to list, and attributes are set by the owner and
    /// the superuser.
    pub open spec fn authorize(self, uid: u32, gid: u32, action: Action) -> Result<(), FsError> {
        match action {
            Action::Lookup { parent } => self.permit(parent, uid, gid, Access::Search),
            Action::Make { parent } => self.permit(parent, uid, gid, Access::Change),
            Action::Remove { parent } => self.permit(parent, uid, gid, Access::Change),
            Action::Rename { parent, new_parent } => match self.permit(
                parent,
                uid,
                gid,
                Access::Change,
            ) {
                Err(e) => Err(e),
                Ok(()) => self.permit(new_parent, uid, gid, Access::Change),
            },
            Action::Open { ino, read, write } => self.permit(
                ino,
                uid,
                gid,
                access_for(read, write),
            ),
            Action::List { ino } => self.permit(ino, uid, gid, Access::List),
            Action::SetAttr { ino } => match self.store.attr(ino) {
                Err(e) => Err(e),
                Ok(a) => if may_set(a, uid) {
                    Ok(())
                } else {
                    Err(FsError::PermissionDenied)
                },
            },
        }
    }

    /// `mkdir_owned`: makes a directory as `mkdir` does, and gives it to the
    /// caller.
    pub open spec fn mkdir_owned(self, parent: u64, name: Seq<u8>, mode: u16, uid: u32, gid: u32) -> (
        FsView,
        Result<FileAttr, FsError>,
    ) {
        match self.mkdir(parent, name, mode).1 {
            Err(e) => (self.mkdir(parent, name, mode).0, Err(e)),
            Ok(a) => self.mkdir(parent, name, mode).0.setattr(a.ino, owner_set(uid, gid)),
        }
    }

    /// `lookup`: the attributes of what `name` leads to in `parent`. The
    /// names `.` and `..` lead to the directory itself and to the one it was
    /// reached through. An entry whose inode has no readable record, or one
    /// of another kind than the entry says, is `Corrupted`. A lookup that
    /// finds an entry notes the directory as the parent of its inode.
    pub open spec fn lookup(self, parent: u64, name: Seq<u8>) -> (FsView, Result<FileAttr, FsError>) {
        match self.dir(parent) {
            Err(e) => (self, Err(e)),
            Ok(pa) => if is_dot(name) {
                (self, Ok(pa))
            } else if is_dot_dot(name) {
                (self, self.store.attr(self.parent_of(parent)))
            } else {
                match self.store.entries(parent) {
                    Err(e) => (self, Err(e)),
                    Ok(es) => match position(es, name) {
                        None => (self, Err(FsError::NotFound)),
                        Some(i) => match self.store.attr(es[i].ino) {
                            Ok(a) => if a.kind == es[i].kind {
                                (
                                    FsView {
                                        parents: self.parents.insert(es[i].ino, parent),
                                        ..self
                                    },
                                    Ok(a),
                                )
                            } else {
                                (self, Err(FsError::Corrupted))
                            },
                            Err(_) => (self, Err(FsError::Corrupted)),
                        },
                    },
                }
            },
        }
    }

    /// Whether an entry `name` can be added to `parent`, and if so the
    /// attributes and entries of `parent`.
    pub open spec fn can_add(self, parent: u64, name: Seq<u8>) -> Result<
        (FileAttr, Seq<Entry>),
        FsError,
    > {
        if !valid_name(name) {
            Err(FsError::InvalidInput)
        } else {
            match self.open_dir(parent) {
                Err(e) => Err(e),
                Ok((pa, es)) => if position(es, name) is Some {
                    Err(FsError::AlreadyExists)
                } else if self.next_ino == u64::MAX || es.len() >= MAX_DIR_ENTRIES {
                    Err(FsError::Other)
                } else {
                    Ok((pa, es))
                },
            }
        }
    }

    /// The store after an entry for a new inode was added to `parent`, whose
    /// attributes were `pa` and which had `count` entries.
    pub open spec fn linked(
        self,
        parent: u64,
        pa: FileAttr,
        count: int,
        name: Seq<u8>,
        a: FileAttr,
    ) -> StoreView {
        self.store.with_folder(
            parent,
            self.store.slots(parent).push(Some(Entry { name, ino: a.ino, kind: a.kind })),
        ).with_attr(self.touched_dir(pa, count + 1)).with_attr(a)
    }

    /// The attributes of a regular file made from a template.
    pub open spec fn file_attr(self, template: FileAttr) -> FileAttr {
        FileAttr {
            ino: self.next_ino,
            size: 0,
            blocks: 0,
            kind: FileType::RegularFile,
            perm: creation_mode(template.perm, self.suid_support),
            nlink: 1,
            ..template
        }
    }

    /// `create_nod`: makes a regular file `name` in `parent` with the
    /// attributes of the template, but for inode, size, blocks, kind and
    /// link count, which the engine sets, and the mode bits that creation
    /// leaves. With `read` or `write` the file is opened and the handle
    /// returned, else the handle is 0.
    pub open spec fn create_nod(
        self,
        parent: u64,
        name: Seq<u8>,
        template: FileAttr,
        read: bool,
        write: bool,
    ) -> (FsView, Result<(u64, FileAttr), FsError>) {
        if template.kind != FileType::RegularFile {
            (self, Err(FsError::InvalidInput))
        } else {
            match self.can_add(parent, name) {
                Err(e) => (self, Err(e)),
                Ok((pa, es)) => if (read || write) && self.next_handle == u64::MAX {
                    (self, Err(FsError::Other))
                } else {
                    let a = self.file_attr(template);
                    let store = self.linked(parent, pa, es.len() as int, name, a).with_file(
                        a.ino,
                        FileView {
                            chunk_size: self.chunk_size,
                            generation: 0,
                            intact: true,
                            bytes: Seq::empty(),
                        },
                    );
                    let opened = read || write;
                    (
                        FsView {
                            store,
                            handles: if opened {
                                self.handles.push(
                                    Handle {
                                        id: self.next_handle,
                                        ino: a.ino,
                                        read,
                                        write,
                                        dirty: false,
                                    },
                                )
                            } else {
                                self.handles
                            },
                            parents: self.parents.insert(a.ino, parent),
                            next_ino: (self.next_ino + 1) as u64,
                            next_handle: if opened {
                                (self.next_handle + 1) as u64
                            } else {
                                self.next_handle
                            },
                            ..self
                        },
                        Ok(
                            (
                                if opened {
                                    self.next_handle
                                } else {
                                    0
                                },
                                a,
                            ),
                        ),
                    )
                },
            }
        }
    }

    /// The attributes of a directory made in a directory with attributes `pa`.
    pub open spec fn dir_attr(self, pa: FileAttr, mode: u16) -> FileAttr {
        FileAttr {
            ino: self.next_ino,
            size: 0,
            blocks: 0,
            atime: self.clock,
            mtime: self.clock,
            ctime: self.clock,
            crtime: self.clock,
            kind: FileType::Directory,
            perm: creation_mode(mode, self.suid_support),
            nlink: 2,
            uid: pa.uid,
            gid: pa.gid,
            rdev: 0,
            blksize: 0,
            flags: 0,
        }
    }

    /// `mkdir`: makes an empty directory `name` in `parent`, owned as
    /// `parent` is and stamped with the clock.
    pub open spec fn mkdir(self, parent: u64, name: Seq<u8>, mode: u16) -> (FsView, Result<
        FileAttr,
        FsError,
    >) {
        match self.can_add(parent, name) {
            Err(e) => (self, Err(e)),
            Ok((pa, es)) => {
                let a = self.dir_attr(pa, mode);
                let store = self.linked(parent, pa, es.len() as int, name, a).with_folder(
                    a.ino,
                    Seq::empty(),
                );
                (
                    FsView {
                        store,
                        parents: self.parents.insert(a.ino, parent),
                        next_ino: (self.next_ino + 1) as u64,
                        ..self
                    },
                    Ok(a),
                )
            },
        }
    }

    /// The store after the entry at place `i` was taken out of `parent`,
    /// whose attributes were `pa` and which had `count` entries.
    pub open spec fn unlinked(self, parent: u64, pa: FileAttr, count: int, i: int) -> StoreView {
        self.store.with_folder(parent, self.store.slots(parent).remove(i)).with_attr(
            self.touched_dir(pa, count - 1),
        )
    }

    /// What becomes of a regular file without an entry: while a handle is
    /// open on it, its record stays with a link count of 0; else record and
    /// content are removed.
    pub open spec fn dropped(self, store: StoreView, a: FileAttr) -> StoreView {
        if any_open(self.handles, a.ino) {
            store.with_attr(FileAttr { nlink: 0, ctime: self.clock, ..a })
        } else {
            store.without(a.ino)
        }
    }

    /// `unlink`: takes the entry `name` of a file out of `parent`.
    pub open spec fn unlink(self, parent: u64, name: Seq<u8>) -> (FsView, Result<(), FsError>) {
        match self.open_dir(parent) {
            Err(e) => (self, Err(e)),
            Ok((pa, es)) => match position(es, name) {
                None => (self, Err(FsError::NotFound)),
                Some(i) => if es[i].kind == FileType::Directory {
                    (self, Err(FsError::IsADirectory))
                } else {
                    match self.store.attr(es[i].ino) {
                        Err(_) => (self, Err(FsError::Corrupted)),
                        Ok(a) => (
                            FsView {
                                store: self.dropped(
                                    self.unlinked(parent, pa, es.len() as int, i),
                                    a,
                                ),
                                parents: self.parents.remove(es[i].ino),
                                ..self
                            },
                            Ok(()),
                        ),
                    }
                },
            },
        }
    }

    /// `rmdir`: takes the entry `name` of an empty directory out of
    /// `parent`, and removes the directory.
    pub open spec fn rmdir(self, parent: u64, name: Seq<u8>) -> (FsView, Result<(), FsError>) {
        match self.open_dir(parent) {
            Err(e) => (self, Err(e)),
            Ok((pa, es)) => match position(es, name) {
                None => (self, Err(FsError::NotFound)),
                Some(i) => if es[i].kind != FileType::Directory {
                    (self, Err(FsError::NotADirectory))
                } else {
                    match self.store.attr(es[i].ino) {
                        Err(_) => (self, Err(FsError::Corrupted)),
                        Ok(_) => match self.store.entries(es[i].ino) {
                            Err(e) => (self, Err(e)),
                            Ok(inner) => if inner.len() > 0 {
                                (self, Err(FsError::NotEmpty))
                            } else {
                                (
                                    FsView {
                                        store: self.unlinked(
                                            parent,
                                            pa,
                                            es.len() as int,
                                            i,
                                        ).without(es[i].ino),
                                        parents: self.parents.remove(es[i].ino),
                                        ..self
                                    },
                                    Ok(()),
                                )
                            },
                        },
                    }
                },
            },
        }
    }

    /// What a rename finds at its destination: nothing, or the place and the
    /// attributes of an entry that the source may replace. A directory
    /// replaces only an empty directory, and a file only what is no
    /// directory. A full directory takes no new name.
    pub open spec fn rename_target(self, src: Entry, des: Seq<Entry>, name: Seq<u8>) -> Result<
        Option<(int, FileAttr)>,
        FsError,
    > {
        match position(des, name) {
            None => if des.len() >= MAX_DIR_ENTRIES {
                Err(FsError::Other)
            } else {
                Ok(None)
            },
            Some(j) => if src.kind == FileType::Directory && des[j].kind != FileType::Directory {
                Err(FsError::NotADirectory)
            } else if src.kind != FileType::Directory && des[j].kind == FileType::Directory {
                Err(FsError::IsADirectory)
            } else {
                match self.store.attr(des[j].ino) {
                    Err(_) => Err(FsError::Corrupted),
                    Ok(da) => if des[j].kind == FileType::Directory {
                        match self.store.entries(des[j].ino) {
                            Err(e) => Err(e),
                            Ok(inner) => if inner.len() > 0 {
                                Err(FsError::NotEmpty)
                            } else {
                                Ok(Some((j, da)))
                            },
                        }
                    } else {
                        Ok(Some((j, da)))
                    },
                }
            },
        }
    }

    /// The store after the entries of a rename are moved: the destination
    /// leads to the source's inode, in place of what was there or as a new
    /// entry, and the source's entry at place `i` is gone.
    pub open spec fn rename_moved(
        self,
        sp: u64,
        i: int,
        src_ino: u64,
        src_kind: FileType,
        dp: u64,
        name: Seq<u8>,
        at: Option<int>,
    ) -> StoreView {
        let placed = match at {
            Some(j) => self.store.with_folder(
                dp,
                self.store.slots(dp).update(
                    j,
                    Some(
                        Entry {
                            name: self.store.slots(dp)[j].unwrap().name,
                            ino: src_ino,
                            kind: src_kind,
                        },
                    ),
                ),
            ),
            None => self.store.with_folder(
                dp,
                self.store.slots(dp).push(Some(Entry { name, ino: src_ino, kind: src_kind })),
            ),
        };
        placed.with_folder(sp, placed.slots(sp).remove(i))
    }

    /// The state after the attributes of a rename are settled: both
    /// directories and the inode that moved are stamped, and what stood at
    /// the destination is let go of.
    pub open spec fn rename_settled(
        self,
        spa: FileAttr,
        sfinal: int,
        dpa: FileAttr,
        dfinal: int,
        sa: FileAttr,
        src_ino: u64,
        src_kind: FileType,
        dp: u64,
        gone: Option<FileAttr>,
    ) -> FsView {
        let stamped = self.store.with_attr(self.touched_dir(dpa, dfinal)).with_attr(
            self.touched_dir(spa, sfinal),
        ).with_attr(FileAttr { ctime: self.clock, ..sa });
        match gone {
            Some(da) => FsView {
                store: if src_kind == FileType::Directory {
                    stamped.without(da.ino)
                } else {
                    self.dropped(stamped, da)
                },
                parents: self.parents.insert(src_ino, dp).remove(da.ino),
                ..self
            },
            None => FsView { store: stamped, parents: self.parents.insert(src_ino, dp), ..self },
        }
    }

    /// The state after a rename: the entries are moved, and the attributes
    /// settled.
    pub open spec fn renamed(
        self,
        sp: u64,
        spa: FileAttr,
        scount: int,
        i: int,
        src: Entry,
        sa: FileAttr,
        dp: u64,
        dpa: FileAttr,
        dcount: int,
        name: Seq<u8>,
        target: Option<(int, FileAttr)>,
    ) -> FsView {
        let dfinal = if target is Some {
            dcount
        } else {
            dcount + 1
        };
        let sfinal = if sp == dp {
            dfinal - 1
        } else {
            scount - 1
        };
        self.with_store(
            self.rename_moved(
                sp,
                i,
                src.ino,
                src.kind,
                dp,
                name,
                match target {
                    Some((j, _)) => Some(j),
                    None => None,
                },
            ),
        ).rename_settled(
            spa,
            sfinal,
            dpa,
            dfinal,
            sa,
            src.ino,
            src.kind,
            dp,
            match target {
                Some((_, da)) => Some(da),
                None => None,
            },
        )
    }

    /// `rename`: moves the entry `sn` of `sp` to the name `dn` in `dp`. An
    /// entry at the destination is replaced. Where source and destination
    /// lead to the same inode nothing changes.
    pub open spec fn rename(self, sp: u64, sn: Seq<u8>, dp: u64, dn: Seq<u8>) -> (FsView, Result<
        (),
        FsError,
    >) {
        if !valid_name(dn) {
            (self, Err(FsError::InvalidInput))
        } else {
            match self.open_dir(sp) {
                Err(e) => (self, Err(e)),
                Ok((spa, ses)) => match self.open_dir(dp) {
                    Err(e) => (self, Err(e)),
                    Ok((dpa, des)) => match position(ses, sn) {
                        None => (self, Err(FsError::NotFound)),
                        Some(i) => match self.store.attr(ses[i].ino) {
                            Err(_) => (self, Err(FsError::Corrupted)),
                            Ok(sa) => if position(des, dn) matches Some(j) && des[j].ino
                                == ses[i].ino {
                                (self, Ok(()))
                            } else {
                                match self.rename_target(ses[i], des, dn) {
                                    Err(e) => (self, Err(e)),
                                    Ok(target) => (
                                        self.renamed(
                                            sp,
                                            spa,
                                            ses.len() as int,
                                            i,
                                            ses[i],
                                            sa,
                                            dp,
                                            dpa,
                                            des.len() as int,
                                            dn,
                                            target,
                                        ),
                                        Ok(()),
                                    ),
                                }
                            },
                        },
                    },
                },
            }
        }
    }

    /// `open`: opens a regular file for reading, writing or both.
    pub open spec fn open(self, ino: u64, read: bool, write: bool) -> (FsView, Result<u64, FsError>) {
        if !read && !write {
            (self, Err(FsError::InvalidInput))
        } else {
            match self.store.attr(ino) {
                Err(e) => (self, Err(e)),
                Ok(a) => if a.kind == FileType::Directory {
                    (self, Err(FsError::IsADirectory))
                } else if a.kind != FileType::RegularFile {
                    (self, Err(FsError::InvalidInput))
                } else if !self.store.is_file(ino) {
                    (self, Err(FsError::Corrupted))
                } else if self.next_handle == u64::MAX {
                    (self, Err(FsError::Other))
                } else {
                    (
                        FsView {
                            handles: self.handles.push(
                                Handle { id: self.next_handle, ino, read, write, dirty: false },
                            ),
                            next_handle: (self.next_handle + 1) as u64,
                            ..self
                        },
                        Ok(self.next_handle),
                    )
                },
            }
        }
    }

    /// The place of a handle that is open on `ino`, for an operation that
    /// names both: `InvalidInput` where the handle is not open or is open
    /// on another inode.
    pub open spec fn handle_for(self, ino: u64, handle: u64) -> Result<int, FsError> {
        match handle_index(self.handles, handle) {
            None => Err(FsError::InvalidInput),
            Some(k) => if self.handles[k].ino != ino {
                Err(FsError::InvalidInput)
            } else {
                Ok(k)
            },
        }
    }

    /// `read`: up to `len` bytes at `offset`, as far as the size in the
    /// file's attributes reaches.
    pub open spec fn read(self, ino: u64, offset: u64, len: int, handle: u64) -> Result<
        Seq<u8>,
        FsError,
    > {
        match self.handle_for(ino, handle) {
            Err(e) => Err(e),
            Ok(k) => if !self.handles[k].read {
                Err(FsError::PermissionDenied)
            } else {
                match self.store.attr(ino) {
                    Err(e) => Err(e),
                    Ok(a) => if !self.store.is_file(ino) {
                        Err(FsError::Corrupted)
                    } else {
                        self.store.file(ino).read(offset as int, len, a.size as int)
                    },
                }
            },
        }
    }

    /// `write_all`: writes `data` at `offset`, stamps the file with the clock
    /// as modification and change time, and marks the handle as one that
    /// has written. The size in the attributes waits for the flush.
    pub open spec fn write_all(self, ino: u64, offset: u64, data: Seq<u8>, handle: u64) -> (
        FsView,
        Result<(), FsError>,
    ) {
        match self.handle_for(ino, handle) {
            Err(e) => (self, Err(e)),
            Ok(k) => if !self.handles[k].write {
                (self, Err(FsError::PermissionDenied))
            } else {
                match self.store.attr(ino) {
                    Err(e) => (self, Err(e)),
                    Ok(a) => if !self.store.is_file(ino) {
                        (self, Err(FsError::Corrupted))
                    } else {
                        match self.store.file(ino).written(offset as int, data) {
                            Err(e) => (self, Err(e)),
                            Ok(next) => (
                                FsView {
                                    store: self.store.with_file(ino, next).with_attr(
                                        FileAttr { mtime: self.clock, ctime: self.clock, ..a },
                                    ),
                                    handles: self.handles.update(
                                        k,
                                        Handle { dirty: true, ..self.handles[k] },
                                    ),
                                    ..self
                                },
                                Ok(()),
                            ),
                        }
                    },
                }
            },
        }
    }

    /// `flush`: where the handle has written, the file's attributes take the
    /// size of what is stored, and the clock as modification and change time.
    pub open spec fn flush(self, handle: u64) -> (FsView, Result<(), FsError>) {
        match handle_index(self.handles, handle) {
            None => (self, Err(FsError::InvalidInput)),
            Some(k) => {
                let h = self.handles[k];
                if !h.dirty {
                    (self, Ok(()))
                } else {
                    match self.store.attr(h.ino) {
                        Err(e) => (self, Err(e)),
                        Ok(a) => if !self.store.is_file(h.ino) {
                            (self, Err(FsError::Corrupted))
                        } else {
                            (
                                FsView {
                                    store: self.store.with_attr(
                                        FileAttr {
                                            size: self.store.file(h.ino).bytes.len() as u64,
                                            mtime: self.clock,
                                            ctime: self.clock,
                                            ..a
                                        },
                                    ),
                                    handles: self.handles.update(k, Handle { dirty: false, ..h }),
                                    ..self
                                },
                                Ok(()),
                            )
                        },
                    }
                }
            },
        }
    }

    /// `release`: flushes and closes the handle. Where that was the last
    /// handle on a file without an entry, the file's record and content are
    /// removed.
    pub open spec fn release(self, handle: u64) -> (FsView, Result<(), FsError>) {
        match self.flush(handle).1 {
            Err(e) => (self, Err(e)),
            Ok(()) => {
                let flushed = self.flush(handle).0;
                let k = handle_index(self.handles, handle).unwrap();
                let ino = self.handles[k].ino;
                let rest = flushed.handles.remove(k);
                let store = if !any_open(rest, ino) && flushed.store.attr(ino) is Ok
                    && flushed.store.attr(ino).unwrap().nlink == 0 {
                    flushed.store.without(ino)
                } else {
                    flushed.store
                };
                (FsView { store, handles: rest, ..flushed }, Ok(()))
            },
        }
    }

    /// `setattr`: changes the attributes that are named. A change of size
    /// cuts or grows the content of a regular file.
    pub open spec fn setattr(self, ino: u64, set: SetFileAttr) -> (FsView, Result<
        FileAttr,
        FsError,
    >) {
        match self.store.attr(ino) {
            Err(e) => (self, Err(e)),
            Ok(a) => {
                let next = attr_set(a, set, self.clock);
                match set.size {
                    None => (self.with_store(self.store.with_attr(next)), Ok(next)),
                    Some(size) => if a.kind == FileType::Directory {
                        (self, Err(FsError::IsADirectory))
                    } else if a.kind != FileType::RegularFile {
                        (self, Err(FsError::InvalidInput))
                    } else if !self.store.is_file(ino) {
                        (self, Err(FsError::Corrupted))
                    } else {
                        match self.store.file(ino).resized(size as int) {
                            Err(e) => (self, Err(e)),
                            Ok(file) => (
                                self.with_store(
                                    self.store.with_file(ino, file).with_attr(next),
                                ),
                                Ok(next),
                            ),
                        }
                    },
                }
            },
        }
    }

    /// The full listing of a directory: `.`, `..`, and the entries in the
    /// order of their names.
    pub open spec fn listing_of(self, parent: u64, es: Seq<Entry>) -> Seq<Entry> {
        seq![
            Entry { name: dot(), ino: parent, kind: FileType::Directory },
            Entry { name: dot_dot(), ino: self.parent_of(parent), kind: FileType::Directory },
        ] + sort_entries(es)
    }

    /// `readdir`: the listing of a directory from place `offset` on.
    pub open spec fn readdir(self, parent: u64, offset: u64) -> Result<Seq<Entry>, FsError> {
        match self.open_dir(parent) {
            Err(e) => Err(e),
            Ok((_, es)) => {
                let full = self.listing_of(parent, es);
                if offset >= full.len() {
                    Ok(Seq::empty())
                } else {
                    Ok(full.subrange(offset as int, full.len() as int))
                }
            },
        }
    }
}

} // verus!
