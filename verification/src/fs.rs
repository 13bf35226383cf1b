//! The file system: the operations that a mounted file system answers,
//! composed from the stores.
use std::collections::HashMap;
use vstd::prelude::*;

use crate::attr::{
    access_to_open, check_access, check_owner, mask_for, mode_for_creation, Access, Action,
    FileAttr, FileType, SetFileAttr, Timestamp, ROOT_INODE,
};
use crate::cipher::Cipher;
use crate::dir::{entries_view, find, position, sort, DirEntry, Entry};
use crate::content::{DEFAULT_CHUNK_SIZE, MAX_CHUNK_SIZE, MIN_CHUNK_SIZE};
use crate::keystore::{lock, new_master_key, rekey, rekeyed, unlock, unlocked, MAX_PASSWORD_LEN};
use crate::model::{dot, dot_dot, mounted, root_attr};
use crate::secret::SecretBytes;
use crate::store::{Content, DataDir, StoreView};
use crate::error::FsError;
use crate::model::{any_open, handle_index, handle_place, FsView, Handle, MAX_DIR_ENTRIES};
use crate::names::{check_name, name_is_dot, name_is_dot_dot};
use crate::store::{NodeKind, Store};

verus! {

broadcast use vstd::std_specs::hash::group_hash_axioms;

/// A mounted encrypted file system.
pub struct EncryptedFs {
    store: Store,
    handles: Vec<Handle>,
    parents: HashMap<u64, u64>,
    next_ino: u64,
    next_handle: u64,
    clock: Timestamp,
    suid_support: bool,
}

impl View for EncryptedFs {
    type V = FsView;

    closed spec fn view(&self) -> FsView {
        FsView {
            store: self.store@,
            handles: self.handles@,
            parents: self.parents@,
            next_ino: self.next_ino,
            next_handle: self.next_handle,
            clock: self.clock,
            suid_support: self.suid_support,
            chunk_size: self.store.chunk_size,
        }
    }
}

/// What mounting finds: whether the data directory is new, or why it cannot
/// be mounted. A directory without a key file has to be empty, and is new.
/// A key file has to open under the password, and the root directory has to
/// be there.
pub open spec fn init_check(data: DataDir, cipher: Cipher, password: Seq<u8>) -> Result<
    bool,
    FsError,
> {
    match data.key_file() {
        None => if !data.is_empty() {
            Err(FsError::InvalidDataDirStructure)
        } else if password.len() > MAX_PASSWORD_LEN {
            Err(FsError::InvalidPassword)
        } else {
            Ok(true)
        },
        Some(file) => match unlocked(cipher, password, file) {
            Err(e) => Err(e),
            Ok(_) => if data.records().contains_key(ROOT_INODE) && data.stored().contains_key(
                ROOT_INODE,
            ) && data.stored()[ROOT_INODE] is Folder {
                Ok(false)
            } else {
                Err(FsError::InvalidDataDirStructure)
            },
        },
    }
}

/// The number of the first inode that is made in a data directory in which
/// no inode has a number above `bound`; `u64::MAX` where none is left.
pub open spec fn next_inode(bound: u64) -> u64 {
    if bound == u64::MAX {
        u64::MAX
    } else {
        (bound + 1) as u64
    }
}

impl EncryptedFs {
    /// The master key.
    pub closed spec fn master(&self) -> Seq<u8> {
        self.store.key@
    }

    /// The data directory underneath.
    pub closed spec fn data_dir(&self) -> DataDir {
        self.store.data
    }

    /// The cipher that records are sealed with.
    pub closed spec fn cipher_of(&self) -> Cipher {
        self.store.cipher
    }

    /// The data directory underneath is well formed.
    pub proof fn lemma_data_wf(&self)
        requires
            self.wf(),
        ensures
            self.data_dir().wf(),
            MIN_CHUNK_SIZE <= self@.chunk_size <= MAX_CHUNK_SIZE,
    {
    }

    /// What the records of the data directory mean under the master key is
    /// the store of the file system.
    pub proof fn lemma_store(&self)
        ensures
            self@.store == self.data_dir().interp(self.cipher_of(), self.master()),
    {
    }

    /// Mounts a data directory. A new one gets a master key, sealed under
    /// the password, and a root directory.
    pub fn new(data: DataDir, password: &SecretBytes, cipher: Cipher) -> (out: Result<
        EncryptedFs,
        FsError,
    >)
        requires
            data.wf(),
        ensures
            out matches Err(e) ==> init_check(data, cipher, password@) == Err::<bool, FsError>(e),
            out matches Ok(fs) ==> {
                &&& fs.wf()
                &&& fs.cipher_of() == cipher
                &&& fs@.fresh()
                &&& init_check(data, cipher, password@) is Ok
                &&& fs.data_dir().key_file() matches Some(file) && unlocked(cipher, password@, file)
                    == Ok::<Seq<u8>, FsError>(fs.master())
                &&& fs@ == mounted(
                    if init_check(data, cipher, password@).unwrap() {
                        data.interp(cipher, fs.master()).with_folder(
                            ROOT_INODE,
                            Seq::empty(),
                        ).with_attr(root_attr())
                    } else {
                        data.interp(cipher, fs.master())
                    },
                    fs@.next_ino,
                )
                &&& !init_check(data, cipher, password@).unwrap() ==> fs.data_dir() == data
                &&& init_check(data, cipher, password@).unwrap() ==> fs.data_dir().bound()
                    == if data.bound() > ROOT_INODE {
                    data.bound()
                } else {
                    ROOT_INODE
                }
                &&& fs@.next_ino == next_inode(fs.data_dir().bound())
            },
    {
        let mut data = data;
        let ghost given = data;
        let mut parents: HashMap<u64, u64> = HashMap::new();
        parents.insert(ROOT_INODE, ROOT_INODE);
        let fresh = data.key().is_none();
        let master = if fresh {
            if !data.is_blank() {
                return Err(FsError::InvalidDataDirStructure);
            }
            if password.expose().len() > MAX_PASSWORD_LEN {
                return Err(FsError::InvalidPassword);
            }
            let master = new_master_key();
            let file = lock(cipher, password, &master);
            data.set_key(file);
            master
        } else {
            let master = match data.key() {
                Some(file) => match unlock(cipher, password, file.as_slice()) {
                    Ok(master) => master,
                    Err(e) => { return Err(e); },
                },
                None => { return Err(FsError::InvalidDataDirStructure); },
            };
            if data.inode(ROOT_INODE).is_none() {
                return Err(FsError::InvalidDataDirStructure);
            }
            match data.content(ROOT_INODE) {
                Some(Content::Folder(_)) => {},
                _ => { return Err(FsError::InvalidDataDirStructure); },
            }
            master
        };
        let mut store = Store { cipher, key: master, chunk_size: DEFAULT_CHUNK_SIZE, data };
        assert(store@ == given.interp(cipher, store.key@));
        if fresh {
            store.create_folder(ROOT_INODE);
            let epoch = Timestamp { secs: 0, nanos: 0 };
            let root = FileAttr {
                ino: ROOT_INODE,
                size: 0,
                blocks: 0,
                atime: epoch,
                mtime: epoch,
                ctime: epoch,
                crtime: epoch,
                kind: FileType::Directory,
                perm: 0o755,
                nlink: 2,
                uid: 0,
                gid: 0,
                rdev: 0,
                blksize: 0,
                flags: 0,
            };
            store.write_attr(&root);
        }
        let high = store.data.highest();
        let next_ino = if high == u64::MAX {
            u64::MAX
        } else {
            high + 1
        };
        let fs = EncryptedFs {
            store,
            handles: Vec::new(),
            parents,
            next_ino,
            next_handle: 1,
            clock: Timestamp { secs: 0, nanos: 0 },
            suid_support: false,
        };
        proof {
            assert(fs@.parents =~= Map::<u64, u64>::empty().insert(ROOT_INODE, ROOT_INODE));
            assert forall|k: u64| #[trigger] fs@.store.attrs.contains_key(k) implies k
                < fs@.next_ino || fs@.next_ino == u64::MAX by {
                fs.store.data.lemma_bound(k);
            }
            assert forall|k: u64| #[trigger] fs@.store.nodes.contains_key(k) implies k
                < fs@.next_ino || fs@.next_ino == u64::MAX by {
                fs.store.data.lemma_bound(k);
            }
        }
        Ok(fs)
    }

    /// Seals the master key of a data directory anew under another
    /// password. Nothing else in the data directory changes.
    pub fn change_password(
        data: &mut DataDir,
        old_password: &SecretBytes,
        new_password: &SecretBytes,
        cipher: Cipher,
    ) -> (out: Result<(), FsError>)
        ensures
            final(data).records() == old(data).records(),
            final(data).stored() == old(data).stored(),
            final(data).changed() == old(data).changed(),
            final(data).wf() == old(data).wf(),
            out is Err ==> final(data).key_file() == old(data).key_file(),
            match old(data).key_file() {
                None => out == Err::<(), FsError>(FsError::InvalidDataDirStructure),
                Some(file) => rekeyed(
                    cipher,
                    old_password@,
                    new_password@,
                    file,
                    match out {
                        Ok(()) => Ok(final(data).key_file().unwrap()),
                        Err(e) => Err(e),
                    },
                ) && (out is Ok ==> final(data).key_file() is Some),
            },
    {
        let next = match data.key() {
            None => { return Err(FsError::InvalidDataDirStructure); },
            Some(file) => match rekey(cipher, old_password, new_password, file.as_slice()) {
                Ok(next) => next,
                Err(e) => { return Err(e); },
            },
        };
        data.set_key(next);
        Ok(())
    }

    /// The data directory underneath, for writing it to disk.
    pub fn data(&self) -> (data: &DataDir)
        ensures
            *data == self.data_dir(),
    {
        &self.store.data
    }

    /// Unmounts, and hands back the data directory.
    pub fn into_data(self) -> (data: DataDir)
        ensures
            data == self.data_dir(),
    {
        self.store.data
    }

    /// Hands out the inodes whose records have changed since this was last
    /// asked, for writing them to disk.
    pub fn take_changes(&mut self) -> (out: Vec<u64>)
        requires
            old(self).wf(),
        ensures
            final(self).wf(),
            final(self).master() == old(self).master(),
            final(self).cipher_of() == old(self).cipher_of(),
            out@ == old(self).data_dir().changed(),
            final(self).data_dir().changed() == Seq::<u64>::empty(),
            final(self).data_dir().records() == old(self).data_dir().records(),
            final(self).data_dir().stored() == old(self).data_dir().stored(),
            final(self).data_dir().key_file() == old(self).data_dir().key_file(),
            out@.to_set() == old(self)@.store.dirty,
            final(self)@ == old(self)@.with_store(
                StoreView { dirty: Set::empty(), ..old(self)@.store },
            ),
    {
        let out = self.store.data.take_changes();
        proof {
            let want = StoreView { dirty: Set::empty(), ..old(self)@.store };
            assert(self.store@.attrs =~= want.attrs);
            assert(self.store@.nodes =~= want.nodes);
            assert(self.store@.dirty =~= want.dirty);
        }
        out
    }

    /// Sets the chunk size of files that are made from now on; a size
    /// outside the limits is not taken.
    pub fn set_chunk_size(&mut self, chunk_size: u32) -> (taken: bool)
        requires
            old(self).wf(),
        ensures
            final(self).wf(),
            old(self).data_dir().kept_by(&final(self).data_dir()),
            final(self).master() == old(self).master(),
            final(self).cipher_of() == old(self).cipher_of(),
            taken == (MIN_CHUNK_SIZE <= chunk_size <= MAX_CHUNK_SIZE),
            final(self)@ == if taken {
                FsView { chunk_size, ..old(self)@ }
            } else {
                old(self)@
            },
    {
        if chunk_size < MIN_CHUNK_SIZE || chunk_size > MAX_CHUNK_SIZE {
            return false;
        }
        self.store.chunk_size = chunk_size;
        true
    }

    /// Well-formedness of the stores underneath.
    pub closed spec fn wf(&self) -> bool {
        self.store.wf()
    }

    /// Finds the place of the handle with number `id`.
    fn find_handle(&self, id: u64) -> (out: Option<usize>)
        ensures
            (match out {
                Some(k) => Some(k as int),
                None => None,
            }) == handle_index(self.handles@, id),
            out matches Some(k) ==> k < self.handles@.len(),
    {
        let mut i: usize = 0;
        while i < self.handles.len()
            invariant
                i <= self.handles@.len(),
                forall|j: int| 0 <= j < i ==> (#[trigger] self.handles@[j]).id != id,
            decreases self.handles@.len() - i,
        {
            if self.handles[i].id == id {
                proof {
                    assert(handle_place(self.handles@, id, i as int));
                    let c = choose|c: int| handle_place(self.handles@, id, c);
                    if c < i {
                        assert(self.handles@[c].id != id);
                    }
                    if i < c {
                        assert(self.handles@[i as int].id == id);
                    }
                }
                return Some(i);
            }
            i += 1;
        }
        proof {
            if exists|c: int| handle_place(self.handles@, id, c) {
                let c = choose|c: int| handle_place(self.handles@, id, c);
                assert(self.handles@[c].id != id);
            }
        }
        None
    }

    /// Tells whether some handle is open on the inode.
    fn is_open(&self, ino: u64) -> (open: bool)
        ensures
            open == any_open(self.handles@, ino),
    {
        let mut i: usize = 0;
        while i < self.handles.len()
            invariant
                i <= self.handles@.len(),
                forall|j: int| 0 <= j < i ==> (#[trigger] self.handles@[j]).ino != ino,
            decreases self.handles@.len() - i,
        {
            if self.handles[i].ino == ino {
                return true;
            }
            i += 1;
        }
        false
    }

    /// The directory through which an inode was last reached.
    fn parent_of(&self, ino: u64) -> (parent: u64)
        ensures
            parent == self@.parent_of(ino),
    {
        match self.parents.get(&ino) {
            Some(p) => *p,
            None => ROOT_INODE,
        }
    }

    /// Reads the attributes of a directory.
    fn dir(&self, ino: u64) -> (out: Result<FileAttr, FsError>)
        ensures
            out == self@.dir(ino),
    {
        match self.store.read_attr(ino) {
            Ok(a) => match a.kind {
                FileType::Directory => Ok(a),
                _ => Err(FsError::NotADirectory),
            },
            Err(e) => Err(e),
        }
    }

    /// Reads the attributes and the entries of a directory.
    fn open_dir(&self, ino: u64) -> (out: Result<(FileAttr, Vec<DirEntry>), FsError>)
        ensures
            out matches Ok((a, es)) ==> self@.open_dir(ino) == Ok::<(FileAttr, Seq<Entry>), FsError>(
                (a, entries_view(es@)),
            ),
            out matches Err(e) ==> self@.open_dir(ino) == Err::<(FileAttr, Seq<Entry>), FsError>(e),
    {
        let a = match self.dir(ino) {
            Ok(a) => a,
            Err(e) => { return Err(e); },
        };
        match self.store.entries(ino) {
            Ok(es) => Ok((a, es)),
            Err(e) => Err(e),
        }
    }

    /// The attributes of a directory that has changed and now has `count`
    /// entries.
    fn touched_dir(&self, a: &FileAttr, count: u64) -> (out: FileAttr)
        ensures
            out == self@.touched_dir(*a, count as int),
    {
        FileAttr { size: count, mtime: self.clock, ctime: self.clock, ..*a }
    }

    /// Sets the time that operations stamp on what they change.
    pub fn set_clock(&mut self, now: Timestamp)
        requires
            old(self).wf(),
        ensures
            final(self).wf(),
            old(self).data_dir().kept_by(&final(self).data_dir()),
            final(self).master() == old(self).master(),
            final(self).cipher_of() == old(self).cipher_of(),
            final(self)@ == (FsView { clock: now, ..old(self)@ }),
    {
        self.clock = now;
    }

    /// Sets whether files may be made with the set-user-id and set-group-id
    /// bits.
    pub fn set_suid_support(&mut self, suid_support: bool)
        requires
            old(self).wf(),
        ensures
            final(self).wf(),
            old(self).data_dir().kept_by(&final(self).data_dir()),
            final(self).master() == old(self).master(),
            final(self).cipher_of() == old(self).cipher_of(),
            final(self)@ == (FsView { suid_support, ..old(self)@ }),
    {
        self.suid_support = suid_support;
    }

    /// Reads the attributes of an inode.
    pub fn read_attr(&self, ino: u64) -> (out: Result<FileAttr, FsError>)
        requires
            self.wf(),
        ensures
            out == self@.read_attr(ino),
    {
        self.store.read_attr(ino)
    }

    /// Decides whether the caller `uid`/`gid` may do to the inode what it
    /// wants to.
    pub fn permit(&self, ino: u64, uid: u32, gid: u32, access: Access) -> (out: Result<(), FsError>)
        requires
            self.wf(),
        ensures
            out == self@.permit(ino, uid, gid, access),
    {
        let a = match self.store.read_attr(ino) {
            Ok(a) => a,
            Err(e) => { return Err(e); },
        };
        if check_access(&a, uid, gid, mask_for(access)) {
            Ok(())
        } else {
            Err(FsError::PermissionDenied)
        }
    }

    /// Decides whether the caller `uid`/`gid` may do what it asks.
    pub fn authorize(&self, uid: u32, gid: u32, action: Action) -> (out: Result<(), FsError>)
        requires
            self.wf(),
        ensures
            out == self@.authorize(uid, gid, action),
    {
        match action {
            Action::Lookup { parent } => self.permit(parent, uid, gid, Access::Search),
            Action::Make { parent } => self.permit(parent, uid, gid, Access::Change),
            Action::Remove { parent } => self.permit(parent, uid, gid, Access::Change),
            Action::Rename { parent, new_parent } => {
                match self.permit(parent, uid, gid, Access::Change) {
                    Err(e) => Err(e),
                    Ok(()) => self.permit(new_parent, uid, gid, Access::Change),
                }
            },
            Action::Open { ino, read, write } => self.permit(
                ino,
                uid,
                gid,
                access_to_open(read, write),
            ),
            Action::List { ino } => self.permit(ino, uid, gid, Access::List),
            Action::SetAttr { ino } => {
                match self.store.read_attr(ino) {
                    Err(e) => Err(e),
                    Ok(a) => {
                        if check_owner(&a, uid) {
                            Ok(())
                        } else {
                            Err(FsError::PermissionDenied)
                        }
                    },
                }
            },
        }
    }

    /// Makes an empty directory `name` in `parent`, and gives it to the
    /// caller `uid`/`gid`.
    pub fn mkdir_owned(&mut self, parent: u64, name: &[u8], mode: u16, uid: u32, gid: u32) -> (out:
        Result<FileAttr, FsError>)
        requires
            old(self).wf(),
        ensures
            final(self).wf(),
            old(self).data_dir().kept_by(&final(self).data_dir()),
            final(self).master() == old(self).master(),
            final(self).cipher_of() == old(self).cipher_of(),
            old(self)@.mkdir_owned(parent, name@, mode, uid, gid) == (final(self)@, out),
    {
        let made = match self.mkdir(parent, name, mode) {
            Ok(made) => made,
            Err(e) => { return Err(e); },
        };
        let ghost between = self.store.data;
        let owner = SetFileAttr {
            size: None,
            atime: None,
            mtime: None,
            ctime: None,
            crtime: None,
            perm: None,
            uid: Some(uid),
            gid: Some(gid),
            flags: None,
        };
        let out = self.setattr(made.ino, owner);
        proof {
            old(self).store.data.lemma_kept_by(&between, &self.store.data);
        }
        out
    }

    /// Looks `name` up in the directory `parent`.
    pub fn lookup(&mut self, parent: u64, name: &[u8]) -> (out: Result<FileAttr, FsError>)
        requires
            old(self).wf(),
        ensures
            final(self).wf(),
            old(self).data_dir().kept_by(&final(self).data_dir()),
            final(self).master() == old(self).master(),
            final(self).cipher_of() == old(self).cipher_of(),
            old(self)@.lookup(parent, name@) == (final(self)@, out),
    {
        let pa = match self.dir(parent) {
            Ok(pa) => pa,
            Err(e) => { return Err(e); },
        };
        if name_is_dot(name) {
            return Ok(pa);
        }
        if name_is_dot_dot(name) {
            return self.store.read_attr(self.parent_of(parent));
        }
        let es = match self.store.entries(parent) {
            Ok(es) => es,
            Err(e) => { return Err(e); },
        };
        let i = match find(&es, name) {
            Some(i) => i,
            None => { return Err(FsError::NotFound); },
        };
        let ino = es[i].ino;
        let kind = es[i].kind;
        assert(entries_view(es@)[i as int] == es@[i as int]@);
        match self.store.read_attr(ino) {
            Ok(a) => {
                if a.kind == kind {
                    self.parents.insert(ino, parent);
                    Ok(a)
                } else {
                    Err(FsError::Corrupted)
                }
            },
            Err(_) => Err(FsError::Corrupted),
        }
    }

    /// Checks that an entry `name` can be added to `parent`.
    fn can_add(&self, parent: u64, name: &[u8]) -> (out: Result<(FileAttr, u64), FsError>)
        ensures
            out matches Ok((pa, count)) ==> {
                &&& self@.can_add(parent, name@) matches Ok((a, es))
                &&& a == pa
                &&& es.len() == count
            },
            out matches Err(e) ==> self@.can_add(parent, name@) == Err::<
                (FileAttr, Seq<Entry>),
                FsError,
            >(e),
    {
        if !check_name(name) {
            return Err(FsError::InvalidInput);
        }
        let (pa, es) = match self.open_dir(parent) {
            Ok(found) => found,
            Err(e) => { return Err(e); },
        };
        if find(&es, name).is_some() {
            return Err(FsError::AlreadyExists);
        }
        if self.next_ino == u64::MAX || es.len() as u64 >= MAX_DIR_ENTRIES {
            return Err(FsError::Other);
        }
        Ok((pa, es.len() as u64))
    }

    /// Adds the entry of a new inode with attributes `a` to `parent`.
    fn link(&mut self, parent: u64, pa: &FileAttr, count: u64, name: &[u8], a: &FileAttr)
        requires
            old(self).wf(),
            old(self)@.can_add(parent, name@) matches Ok((x, es)) && x == *pa && es.len() == count,
        ensures
            final(self).wf(),
            old(self).data_dir().kept_by(&final(self).data_dir()),
            final(self).master() == old(self).master(),
            final(self).cipher_of() == old(self).cipher_of(),
            final(self)@ == old(self)@.with_store(
                old(self)@.linked(parent, *pa, count as int, name@, *a),
            ),
            final(self).store.chunk_size == old(self).store.chunk_size,
    {
        proof {
            let es = self@.store.entries(parent).unwrap();
            if !crate::dir::unnamed(es, name@) {
                let j = choose|j: int| 0 <= j < es.len() && (#[trigger] es[j]).name == name@;
                crate::model::lemma_named(es, name@, j);
            }
        }
        self.store.add_entry(parent, name, a.ino, a.kind);
        let touched = self.touched_dir(pa, count + 1);
        self.store.write_attr(&touched);
        self.store.write_attr(a);
    }

    /// Makes a regular file `name` in `parent`, and opens it where `read`
    /// or `write` is asked for.
    pub fn create_nod(
        &mut self,
        parent: u64,
        name: &[u8],
        template: FileAttr,
        read: bool,
        write: bool,
    ) -> (out: Result<(u64, FileAttr), FsError>)
        requires
            old(self).wf(),
        ensures
            final(self).wf(),
            old(self).data_dir().kept_by(&final(self).data_dir()),
            final(self).master() == old(self).master(),
            final(self).cipher_of() == old(self).cipher_of(),
            old(self)@.create_nod(parent, name@, template, read, write) == (final(self)@, out),
    {
        match template.kind {
            FileType::RegularFile => {},
            _ => { return Err(FsError::InvalidInput); },
        }
        let (pa, count) = match self.can_add(parent, name) {
            Ok(found) => found,
            Err(e) => { return Err(e); },
        };
        let opened = read || write;
        if opened && self.next_handle == u64::MAX {
            return Err(FsError::Other);
        }
        let a = FileAttr {
            ino: self.next_ino,
            size: 0,
            blocks: 0,
            kind: FileType::RegularFile,
            perm: mode_for_creation(template.perm, self.suid_support),
            nlink: 1,
            ..template
        };
        self.link(parent, &pa, count, name, &a);
        self.store.create_file(a.ino);
        self.parents.insert(a.ino, parent);
        self.next_ino = self.next_ino + 1;
        let fh = if opened {
            let fh = self.next_handle;
            self.handles.push(Handle { id: fh, ino: a.ino, read, write, dirty: false });
            self.next_handle = self.next_handle + 1;
            fh
        } else {
            0
        };
        Ok((fh, a))
    }

    /// Makes an empty directory `name` in `parent`.
    pub fn mkdir(&mut self, parent: u64, name: &[u8], mode: u16) -> (out: Result<FileAttr, FsError>)
        requires
            old(self).wf(),
        ensures
            final(self).wf(),
            old(self).data_dir().kept_by(&final(self).data_dir()),
            final(self).master() == old(self).master(),
            final(self).cipher_of() == old(self).cipher_of(),
            old(self)@.mkdir(parent, name@, mode) == (final(self)@, out),
    {
        let (pa, count) = match self.can_add(parent, name) {
            Ok(found) => found,
            Err(e) => { return Err(e); },
        };
        let a = FileAttr {
            ino: self.next_ino,
            size: 0,
            blocks: 0,
            atime: self.clock,
            mtime: self.clock,
            ctime: self.clock,
            crtime: self.clock,
            kind: FileType::Directory,
            perm: mode_for_creation(mode, self.suid_support),
            nlink: 2,
            uid: pa.uid,
            gid: pa.gid,
            rdev: 0,
            blksize: 0,
            flags: 0,
        };
        self.link(parent, &pa, count, name, &a);
        self.store.create_folder(a.ino);
        self.parents.insert(a.ino, parent);
        self.next_ino = self.next_ino + 1;
        Ok(a)
    }

    /// Lets go of a regular file that has no entry any more.
    fn drop_file(&mut self, a: &FileAttr)
        requires
            old(self).wf(),
        ensures
            final(self).wf(),
            old(self).data_dir().kept_by(&final(self).data_dir()),
            final(self).master() == old(self).master(),
            final(self).cipher_of() == old(self).cipher_of(),
            final(self)@ == old(self)@.with_store(old(self)@.dropped(old(self)@.store, *a)),
    {
        if self.is_open(a.ino) {
            let gone = FileAttr { nlink: 0, ctime: self.clock, ..*a };
            self.store.write_attr(&gone);
        } else {
            self.store.remove(a.ino);
        }
    }

    /// Takes the entry at place `i` out of `parent`.
    fn unlink_at(&mut self, parent: u64, pa: &FileAttr, count: usize, i: usize)
        requires
            old(self).wf(),
            old(self)@.store.is_folder(parent),
            old(self)@.store.slots(parent).len() == count,
            i < count,
        ensures
            final(self).wf(),
            old(self).data_dir().kept_by(&final(self).data_dir()),
            final(self).master() == old(self).master(),
            final(self).cipher_of() == old(self).cipher_of(),
            final(self)@ == old(self)@.with_store(
                old(self)@.unlinked(parent, *pa, count as int, i as int),
            ),
    {
        self.store.remove_entry(parent, i);
        let touched = self.touched_dir(pa, (count - 1) as u64);
        self.store.write_attr(&touched);
    }

    /// Takes the entry `name` of a file out of `parent`. The file stays
    /// readable through the handles that are open on it.
    pub fn unlink(&mut self, parent: u64, name: &[u8]) -> (out: Result<(), FsError>)
        requires
            old(self).wf(),
        ensures
            final(self).wf(),
            old(self).data_dir().kept_by(&final(self).data_dir()),
            final(self).master() == old(self).master(),
            final(self).cipher_of() == old(self).cipher_of(),
            old(self)@.unlink(parent, name@) == (final(self)@, out),
    {
        let (pa, es) = match self.open_dir(parent) {
            Ok(found) => found,
            Err(e) => { return Err(e); },
        };
        let i = match find(&es, name) {
            Some(i) => i,
            None => { return Err(FsError::NotFound); },
        };
        let ino = es[i].ino;
        assert(entries_view(es@)[i as int] == es@[i as int]@);
        match es[i].kind {
            FileType::Directory => { return Err(FsError::IsADirectory); },
            _ => {},
        }
        let a = match self.store.read_attr(ino) {
            Ok(a) => a,
            Err(_) => { return Err(FsError::Corrupted); },
        };
        self.unlink_at(parent, &pa, es.len(), i);
        self.drop_file(&a);
        self.parents.remove(&ino);
        Ok(())
    }

    /// Takes the entry `name` of an empty directory out of `parent`, and
    /// removes the directory.
    pub fn rmdir(&mut self, parent: u64, name: &[u8]) -> (out: Result<(), FsError>)
        requires
            old(self).wf(),
        ensures
            final(self).wf(),
            old(self).data_dir().kept_by(&final(self).data_dir()),
            final(self).master() == old(self).master(),
            final(self).cipher_of() == old(self).cipher_of(),
            old(self)@.rmdir(parent, name@) == (final(self)@, out),
    {
        let (pa, es) = match self.open_dir(parent) {
            Ok(found) => found,
            Err(e) => { return Err(e); },
        };
        let i = match find(&es, name) {
            Some(i) => i,
            None => { return Err(FsError::NotFound); },
        };
        let ino = es[i].ino;
        assert(entries_view(es@)[i as int] == es@[i as int]@);
        match es[i].kind {
            FileType::Directory => {},
            _ => { return Err(FsError::NotADirectory); },
        }
        if self.store.read_attr(ino).is_err() {
            return Err(FsError::Corrupted);
        }
        let inner = match self.store.entries(ino) {
            Ok(inner) => inner,
            Err(e) => { return Err(e); },
        };
        if inner.len() > 0 {
            return Err(FsError::NotEmpty);
        }
        self.unlink_at(parent, &pa, es.len(), i);
        self.store.remove(ino);
        self.parents.remove(&ino);
        Ok(())
    }

    /// Moves the entries of a rename: the destination leads to the source's
    /// inode, and the source's entry is taken out.
    fn move_entry(
        &mut self,
        sp: u64,
        i: usize,
        src_ino: u64,
        src_kind: FileType,
        dp: u64,
        dn: &[u8],
        at: Option<usize>,
    )
        requires
            old(self).wf(),
            crate::names::valid_name(dn@),
            old(self)@.store.entries(dp) is Ok,
            old(self)@.store.is_folder(sp),
            i < old(self)@.store.slots(sp).len(),
            at matches Some(j) ==> j < old(self)@.store.slots(dp).len(),
            at is None ==> crate::dir::unnamed(old(self)@.store.entries(dp).unwrap(), dn@),
        ensures
            final(self).wf(),
            old(self).data_dir().kept_by(&final(self).data_dir()),
            final(self).master() == old(self).master(),
            final(self).cipher_of() == old(self).cipher_of(),
            final(self)@ == old(self)@.with_store(
                old(self)@.rename_moved(
                    sp,
                    i as int,
                    src_ino,
                    src_kind,
                    dp,
                    dn@,
                    match at {
                        Some(j) => Some(j as int),
                        None => None,
                    },
                ),
            ),
    {
        let ghost before = self.store.data;
        match at {
            Some(j) => {
                self.store.retarget_entry(dp, j, src_ino, src_kind);
            },
            None => {
                self.store.add_entry(dp, dn, src_ino, src_kind);
            },
        }
        let ghost between = self.store.data;
        self.store.remove_entry(sp, i);
        proof {
            before.lemma_kept_by(&between, &self.store.data);
        }
    }

    /// Settles the attributes of a rename: stamps both directories and the
    /// inode that moved, and lets go of what stood at the destination.
    fn settle_rename(
        &mut self,
        spa: &FileAttr,
        sfinal: u64,
        dpa: &FileAttr,
        dfinal: u64,
        sa: &FileAttr,
        src_ino: u64,
        src_kind: FileType,
        dp: u64,
        gone: Option<FileAttr>,
    )
        requires
            old(self).wf(),
        ensures
            final(self).wf(),
            old(self).data_dir().kept_by(&final(self).data_dir()),
            final(self).master() == old(self).master(),
            final(self).cipher_of() == old(self).cipher_of(),
            final(self)@ == old(self)@.rename_settled(
                *spa,
                sfinal as int,
                *dpa,
                dfinal as int,
                *sa,
                src_ino,
                src_kind,
                dp,
                gone,
            ),
    {
        let ghost d0 = self.store.data;
        let dtouched = self.touched_dir(dpa, dfinal);
        self.store.write_attr(&dtouched);
        let ghost d1 = self.store.data;
        let stouched = self.touched_dir(spa, sfinal);
        self.store.write_attr(&stouched);
        let ghost d2 = self.store.data;
        let moved = FileAttr { ctime: self.clock, ..*sa };
        self.store.write_attr(&moved);
        let ghost d3 = self.store.data;
        self.parents.insert(src_ino, dp);
        match gone {
            Some(da) => {
                match src_kind {
                    FileType::Directory => {
                        self.store.remove(da.ino);
                    },
                    _ => {
                        self.drop_file(&da);
                    },
                }
                self.parents.remove(&da.ino);
            },
            None => {},
        }
        proof {
            d0.lemma_kept_by(&d1, &d2);
            d0.lemma_kept_by(&d2, &d3);
            d0.lemma_kept_by(&d3, &self.store.data);
        }
    }

    /// Looks at what stands at the destination of a rename.
    fn rename_target(&self, src: &DirEntry, des: &Vec<DirEntry>, name: &[u8]) -> (out: Result<
        Option<(usize, FileAttr)>,
        FsError,
    >)
        ensures
            (match out {
                Ok(Some((j, da))) => Ok(Some((j as int, da))),
                Ok(None) => Ok(None),
                Err(e) => Err(e),
            }) == self@.rename_target(src@, entries_view(des@), name@),
            out matches Ok(Some((j, _))) ==> j < des@.len() && position(
                entries_view(des@),
                name@,
            ) == Some(j as int),
            out matches Ok(None) ==> crate::dir::unnamed(entries_view(des@), name@) && des@.len()
                < MAX_DIR_ENTRIES,
    {
        let j = match find(des, name) {
            Some(j) => j,
            None => {
                if des.len() as u64 >= MAX_DIR_ENTRIES {
                    return Err(FsError::Other);
                }
                return Ok(None);
            },
        };
        assert(entries_view(des@)[j as int] == des@[j as int]@);
        let src_dir = match src.kind {
            FileType::Directory => true,
            _ => false,
        };
        let dst_dir = match des[j].kind {
            FileType::Directory => true,
            _ => false,
        };
        if src_dir && !dst_dir {
            return Err(FsError::NotADirectory);
        }
        if !src_dir && dst_dir {
            return Err(FsError::IsADirectory);
        }
        let da = match self.store.read_attr(des[j].ino) {
            Ok(da) => da,
            Err(_) => { return Err(FsError::Corrupted); },
        };
        if dst_dir {
            let inner = match self.store.entries(des[j].ino) {
                Ok(inner) => inner,
                Err(e) => { return Err(e); },
            };
            if inner.len() > 0 {
                return Err(FsError::NotEmpty);
            }
        }
        Ok(Some((j, da)))
    }

    /// Moves the entry `sn` of `sp` to the name `dn` in `dp`, in place of
    /// what that name led to.
    pub fn rename(&mut self, sp: u64, sn: &[u8], dp: u64, dn: &[u8]) -> (out: Result<(), FsError>)
        requires
            old(self).wf(),
        ensures
            final(self).wf(),
            old(self).data_dir().kept_by(&final(self).data_dir()),
            final(self).master() == old(self).master(),
            final(self).cipher_of() == old(self).cipher_of(),
            old(self)@.rename(sp, sn@, dp, dn@) == (final(self)@, out),
    {
        if !check_name(dn) {
            return Err(FsError::InvalidInput);
        }
        let (spa, ses) = match self.open_dir(sp) {
            Ok(found) => found,
            Err(e) => { return Err(e); },
        };
        let (dpa, des) = match self.open_dir(dp) {
            Ok(found) => found,
            Err(e) => { return Err(e); },
        };
        let i = match find(&ses, sn) {
            Some(i) => i,
            None => { return Err(FsError::NotFound); },
        };
        assert(entries_view(ses@)[i as int] == ses@[i as int]@);
        let src_ino = ses[i].ino;
        let src_kind = ses[i].kind;
        let sa = match self.store.read_attr(src_ino) {
            Ok(sa) => sa,
            Err(_) => { return Err(FsError::Corrupted); },
        };
        match find(&des, dn) {
            Some(j) => {
                assert(entries_view(des@)[j as int] == des@[j as int]@);
                if des[j].ino == src_ino {
                    return Ok(());
                }
            },
            None => {},
        }
        let target = match self.rename_target(&ses[i], &des, dn) {
            Ok(target) => target,
            Err(e) => { return Err(e); },
        };
        let dfinal: u64 = match target {
            Some(_) => des.len() as u64,
            None => des.len() as u64 + 1,
        };
        let sfinal: u64 = if sp == dp {
            dfinal - 1
        } else {
            (ses.len() - 1) as u64
        };
        let at = match target {
            Some((j, _)) => Some(j),
            None => None,
        };
        let gone = match target {
            Some((_, da)) => Some(da),
            None => None,
        };
        let ghost before = self.store.data;
        self.move_entry(sp, i, src_ino, src_kind, dp, dn, at);
        let ghost between = self.store.data;
        self.settle_rename(&spa, sfinal, &dpa, dfinal, &sa, src_ino, src_kind, dp, gone);
        proof {
            before.lemma_kept_by(&between, &self.store.data);
        }
        Ok(())
    }

    /// Opens a regular file for reading, writing or both, and returns the
    /// handle.
    pub fn open(&mut self, ino: u64, read: bool, write: bool) -> (out: Result<u64, FsError>)
        requires
            old(self).wf(),
        ensures
            final(self).wf(),
            old(self).data_dir().kept_by(&final(self).data_dir()),
            final(self).master() == old(self).master(),
            final(self).cipher_of() == old(self).cipher_of(),
            old(self)@.open(ino, read, write) == (final(self)@, out),
    {
        if !read && !write {
            return Err(FsError::InvalidInput);
        }
        let a = match self.store.read_attr(ino) {
            Ok(a) => a,
            Err(e) => { return Err(e); },
        };
        match a.kind {
            FileType::Directory => { return Err(FsError::IsADirectory); },
            FileType::Symlink => { return Err(FsError::InvalidInput); },
            FileType::RegularFile => {},
        }
        match self.store.node_kind(ino) {
            NodeKind::File => {},
            _ => { return Err(FsError::Corrupted); },
        }
        if self.next_handle == u64::MAX {
            return Err(FsError::Other);
        }
        let fh = self.next_handle;
        self.handles.push(Handle { id: fh, ino, read, write, dirty: false });
        self.next_handle = self.next_handle + 1;
        Ok(fh)
    }

    /// Finds the place of a handle that is open on `ino`.
    fn handle_for(&self, ino: u64, handle: u64) -> (out: Result<usize, FsError>)
        ensures
            (match out {
                Ok(k) => Ok(k as int),
                Err(e) => Err(e),
            }) == self@.handle_for(ino, handle),
            out matches Ok(k) ==> k < self.handles@.len(),
    {
        match self.find_handle(handle) {
            None => Err(FsError::InvalidInput),
            Some(k) => {
                if self.handles[k].ino != ino {
                    Err(FsError::InvalidInput)
                } else {
                    Ok(k)
                }
            },
        }
    }

    /// Reads into `buf`, from its start, the bytes of the file at `offset`,
    /// as many as `buf` holds and the file has, and returns their number.
    /// On an error `buf` is as it was.
    pub fn read(&self, ino: u64, offset: u64, buf: &mut Vec<u8>, handle: u64) -> (out: Result<
        usize,
        FsError,
    >)
        requires
            self.wf(),
        ensures
            final(buf)@.len() == old(buf)@.len(),
            match self@.read(ino, offset, old(buf)@.len() as int, handle) {
                Ok(data) => {
                    &&& out == Ok::<usize, FsError>(data.len() as usize)
                    &&& data.len() <= old(buf)@.len()
                    &&& final(buf)@ == data + old(buf)@.subrange(
                        data.len() as int,
                        old(buf)@.len() as int,
                    )
                },
                Err(e) => out == Err::<usize, FsError>(e) && final(buf)@ == old(buf)@,
            },
    {
        let k = match self.handle_for(ino, handle) {
            Ok(k) => k,
            Err(e) => { return Err(e); },
        };
        if !self.handles[k].read {
            return Err(FsError::PermissionDenied);
        }
        let a = match self.store.read_attr(ino) {
            Ok(a) => a,
            Err(e) => { return Err(e); },
        };
        match self.store.node_kind(ino) {
            NodeKind::File => {},
            _ => { return Err(FsError::Corrupted); },
        }
        let data = match self.store.read_file(ino, offset, buf.len(), a.size) {
            Ok(data) => data,
            Err(e) => { return Err(e); },
        };
        let mut i: usize = 0;
        while i < data.len()
            invariant
                i <= data@.len() <= old(buf)@.len(),
                buf@.len() == old(buf)@.len(),
                forall|j: int| 0 <= j < i ==> buf@[j] == data@[j],
                forall|j: int| i <= j < buf@.len() ==> buf@[j] == old(buf)@[j],
            decreases data@.len() - i,
        {
            buf.set(i, data[i]);
            i += 1;
        }
        assert(buf@ =~= data@ + old(buf)@.subrange(data@.len() as int, old(buf)@.len() as int));
        Ok(data.len())
    }

    /// Writes all of `data` at `offset` of the file, and stamps the file with
    /// the clock. A write behind the end fills the gap with zeros.
    pub fn write_all(&mut self, ino: u64, offset: u64, data: &[u8], handle: u64) -> (out: Result<
        (),
        FsError,
    >)
        requires
            old(self).wf(),
        ensures
            final(self).wf(),
            old(self).data_dir().kept_by(&final(self).data_dir()),
            final(self).master() == old(self).master(),
            final(self).cipher_of() == old(self).cipher_of(),
            old(self)@.write_all(ino, offset, data@, handle) == (final(self)@, out),
    {
        let k = match self.handle_for(ino, handle) {
            Ok(k) => k,
            Err(e) => { return Err(e); },
        };
        if !self.handles[k].write {
            return Err(FsError::PermissionDenied);
        }
        let a = match self.store.read_attr(ino) {
            Ok(a) => a,
            Err(e) => { return Err(e); },
        };
        match self.store.node_kind(ino) {
            NodeKind::File => {},
            _ => { return Err(FsError::Corrupted); },
        }
        match self.store.write_file(ino, offset, data) {
            Ok(()) => {},
            Err(e) => { return Err(e); },
        }
        let stamped = FileAttr { mtime: self.clock, ctime: self.clock, ..a };
        self.store.write_attr(&stamped);
        let h = self.handles[k];
        self.handles.set(k, Handle { dirty: true, ..h });
        Ok(())
    }

    /// Brings the attributes of the file up to what the handle has written.
    pub fn flush(&mut self, handle: u64) -> (out: Result<(), FsError>)
        requires
            old(self).wf(),
        ensures
            final(self).wf(),
            old(self).data_dir().kept_by(&final(self).data_dir()),
            final(self).master() == old(self).master(),
            final(self).cipher_of() == old(self).cipher_of(),
            old(self)@.flush(handle) == (final(self)@, out),
    {
        let k = match self.find_handle(handle) {
            Some(k) => k,
            None => { return Err(FsError::InvalidInput); },
        };
        let h = self.handles[k];
        if !h.dirty {
            return Ok(());
        }
        let a = match self.store.read_attr(h.ino) {
            Ok(a) => a,
            Err(e) => { return Err(e); },
        };
        match self.store.node_kind(h.ino) {
            NodeKind::File => {},
            _ => { return Err(FsError::Corrupted); },
        }
        let size = self.store.file_len(h.ino);
        let next = FileAttr { size, mtime: self.clock, ctime: self.clock, ..a };
        self.store.write_attr(&next);
        self.handles.set(k, Handle { dirty: false, ..h });
        Ok(())
    }

    /// Flushes and closes the handle. The last handle on a file without an
    /// entry takes the file with it.
    pub fn release(&mut self, handle: u64) -> (out: Result<(), FsError>)
        requires
            old(self).wf(),
        ensures
            final(self).wf(),
            old(self).data_dir().kept_by(&final(self).data_dir()),
            final(self).master() == old(self).master(),
            final(self).cipher_of() == old(self).cipher_of(),
            old(self)@.release(handle) == (final(self)@, out),
    {
        let k = match self.find_handle(handle) {
            Some(k) => k,
            None => { return Err(FsError::InvalidInput); },
        };
        let ino = self.handles[k].ino;
        match self.flush(handle) {
            Ok(()) => {},
            Err(e) => { return Err(e); },
        }
        self.handles.remove(k);
        if !self.is_open(ino) {
            match self.store.read_attr(ino) {
                Ok(a) => {
                    if a.nlink == 0 {
                        self.store.remove(ino);
                    }
                },
                Err(_) => {},
            }
        }
        Ok(())
    }

    /// Changes the attributes that `set` names, and returns the new
    /// attributes. A change of size cuts or grows a regular file.
    pub fn setattr(&mut self, ino: u64, set: SetFileAttr) -> (out: Result<FileAttr, FsError>)
        requires
            old(self).wf(),
        ensures
            final(self).wf(),
            old(self).data_dir().kept_by(&final(self).data_dir()),
            final(self).master() == old(self).master(),
            final(self).cipher_of() == old(self).cipher_of(),
            old(self)@.setattr(ino, set) == (final(self)@, out),
    {
        let a = match self.store.read_attr(ino) {
            Ok(a) => a,
            Err(e) => { return Err(e); },
        };
        match set.size {
            None => {},
            Some(size) => {
                match a.kind {
                    FileType::Directory => { return Err(FsError::IsADirectory); },
                    FileType::Symlink => { return Err(FsError::InvalidInput); },
                    FileType::RegularFile => {},
                }
                match self.store.node_kind(ino) {
                    NodeKind::File => {},
                    _ => { return Err(FsError::Corrupted); },
                }
                match self.store.resize_file(ino, size) {
                    Ok(()) => {},
                    Err(e) => { return Err(e); },
                }
            },
        }
        self.store.update_attr(ino, &set, self.clock)
    }

    /// Lists a directory from place `offset` on: `.`, `..`, and the entries
    /// in the order of their names.
    pub fn readdir(&self, parent: u64, offset: u64) -> (out: Result<Vec<DirEntry>, FsError>)
        requires
            self.wf(),
        ensures
            out matches Ok(list) ==> self@.readdir(parent, offset) == Ok::<Seq<Entry>, FsError>(
                entries_view(list@),
            ),
            out matches Err(e) ==> self@.readdir(parent, offset) == Err::<Seq<Entry>, FsError>(e),
    {
        let (_, es) = match self.open_dir(parent) {
            Ok(found) => found,
            Err(e) => { return Err(e); },
        };
        let mut sorted = sort(&es);
        let ghost tail = entries_view(sorted@);
        let this: Vec<u8> = vec![0x2eu8];
        let up: Vec<u8> = vec![0x2eu8, 0x2eu8];
        assert(this@ =~= dot());
        assert(up@ =~= dot_dot());
        let mut full: Vec<DirEntry> = Vec::new();
        full.push(DirEntry { name: this, ino: parent, kind: FileType::Directory });
        full.push(
            DirEntry { name: up, ino: self.parent_of(parent), kind: FileType::Directory },
        );
        full.append(&mut sorted);
        assert(entries_view(full@) =~= self@.listing_of(parent, entries_view(es@)));
        if offset >= full.len() as u64 {
            let nothing: Vec<DirEntry> = Vec::new();
            assert(entries_view(nothing@) =~= Seq::<Entry>::empty());
            return Ok(nothing);
        }
        let rest = full.split_off(offset as usize);
        assert(entries_view(rest@) =~= self@.listing_of(parent, entries_view(es@)).subrange(
            offset as int,
            self@.listing_of(parent, entries_view(es@)).len() as int,
        ));
        Ok(rest)
    }
}

} // verus!
