//! What holds of the file system whatever is done with it.
use vstd::prelude::*;

use crate::attr::{FileAttr, FileType, SetFileAttr, Timestamp, ROOT_INODE};
use crate::dir::{
    entry_before, first_named, insert_sorted, intact, lemma_no_position, lemma_position,
    lemma_sort_entries, position, sort_entries, Entry,
};
use crate::model::lemma_named;
use crate::cipher::Cipher;
use crate::content::{
    read_end, read_result, readable, write_result, written, MAX_CHUNKS, MAX_CHUNK_SIZE,
    MIN_CHUNK_SIZE,
};
use crate::error::FsError;
use crate::fs::{init_check, EncryptedFs};
use crate::keystore::{rekeyed, unlocked};
use crate::model::{
    any_open, dot, dot_dot, handle_index, handle_place, mounted, root_attr, FsView, Handle,
};
use crate::names::{is_dot, is_dot_dot, valid_name};
use crate::store::{DataDir, NodeView, StoreView};

verus! {

/// Changing what a handle holds, but not its number, leaves every handle
/// at its place.
pub proof fn lemma_handle_update(handles: Seq<Handle>, k: int, h: Handle, id: u64)
    requires
        0 <= k < handles.len(),
        h.id == handles[k].id,
    ensures
        handle_index(handles.update(k, h), id) == handle_index(handles, id),
{
    let after = handles.update(k, h);
    assert forall|i: int| handle_place(after, id, i) <==> handle_place(handles, id, i) by {
        if handle_place(after, id, i) {
            assert forall|j: int| 0 <= j < i implies (#[trigger] handles[j]).id != id by {
                assert(after[j].id != id);
            }
        }
        if handle_place(handles, id, i) {
            assert forall|j: int| 0 <= j < i implies (#[trigger] after[j]).id != id by {
                assert(handles[j].id != id);
            }
        }
    }
}

/// Every state that the engine is in has a keyed and bounded store.
pub proof fn lemma_engine_store(fs: &EncryptedFs)
    requires
        fs.wf(),
    ensures
        fs@.store.keyed(),
        fs@.store.bounded(),
        MIN_CHUNK_SIZE <= fs@.chunk_size <= MAX_CHUNK_SIZE,
{
    fs.lemma_store();
    fs.lemma_data_wf();
    fs.data_dir().lemma_interp(fs.cipher_of(), fs.master());
}

/// What was written and flushed is read back: after `write_all` of `data`
/// at `offset` through a handle and a `flush` of that handle, a `read` at
/// `offset` through any handle that may read the file gives exactly `data`.
pub proof fn lemma_write_flush_read(
    s: FsView,
    ino: u64,
    offset: u64,
    data: Seq<u8>,
    writer: u64,
    reader: u64,
)
    requires
        s.store.keyed(),
        s.store.bounded(),
        s.write_all(ino, offset, data, writer).1 is Ok,
        s.write_all(ino, offset, data, writer).0.flush(writer).1 is Ok,
        handle_index(s.handles, reader) matches Some(r) && s.handles[r].ino == ino
            && s.handles[r].read,
    ensures
        s.write_all(ino, offset, data, writer).0.flush(writer).0.read(
            ino,
            offset,
            data.len() as int,
            reader,
        ) == Ok::<Seq<u8>, FsError>(data),
{
    let s1 = s.write_all(ino, offset, data, writer).0;
    let s2 = s1.flush(writer).0;
    let k = handle_index(s.handles, writer).unwrap();
    let r = handle_index(s.handles, reader).unwrap();
    let old_file = s.store.file(ino);
    let bytes = write_result(old_file.bytes, old_file.chunk_size as int, offset as int, data).unwrap();
    lemma_handle_update(s.handles, k, Handle { dirty: true, ..s.handles[k] }, writer);
    lemma_handle_update(s.handles, k, Handle { dirty: true, ..s.handles[k] }, reader);
    assert(handle_index(s1.handles, writer) == Some(k));
    assert(s1.handles[k].dirty);
    let a = s1.store.attr(ino).unwrap();
    lemma_handle_update(s1.handles, k, Handle { dirty: false, ..s1.handles[k] }, reader);
    assert(handle_index(s2.handles, reader) == Some(r));
    assert(s2.handles[r].ino == ino && s2.handles[r].read);
    assert(s1.store.file(ino).bytes == bytes);
    assert(bytes.len() <= old_file.chunk_size * MAX_CHUNKS) by {
        assert(s.store.nodes[ino] is File);
        if data.len() == 0 {
        } else {
            assert(bytes == written(old_file.bytes, offset as int, data));
        }
    }
    assert(old_file.chunk_size * MAX_CHUNKS <= u64::MAX) by (nonlinear_arith)
        requires
            old_file.chunk_size <= 0x100_0000,
            MAX_CHUNKS == 0x1000_0000,
    ;
    assert(a.ino == ino) by {
        assert(s1.store.attrs[ino] is Some);
    }
    let size = bytes.len() as u64;
    assert(s2.store.attr(ino) matches Ok(b) && b.size == size);
    assert(s2.store.file(ino).bytes == bytes);
    let got = read_result(bytes, offset as int, data.len() as int, size as int);
    if data.len() > 0 {
        assert(offset + data.len() <= bytes.len());
        assert(readable(bytes, offset as int, offset + data.len()));
        assert(got is Ok);
        assert(got.unwrap() =~= data);
    } else {
        assert(got is Ok);
        assert(got.unwrap() =~= data);
    }
    assert(s2.read(ino, offset, data.len() as int, reader) == got);
}

/// After a change of password the new password mounts the data directory,
/// and what it holds means what it meant before: the master key is the same
/// and no record has changed.
pub proof fn lemma_password_round_trip(
    before: DataDir,
    after: DataDir,
    cipher: Cipher,
    old_password: Seq<u8>,
    new_password: Seq<u8>,
)
    requires
        init_check(before, cipher, old_password) == Ok::<bool, FsError>(false),
        after.records() == before.records(),
        after.stored() == before.stored(),
        after.changed() == before.changed(),
        after.key_file() is Some,
        rekeyed(
            cipher,
            old_password,
            new_password,
            before.key_file().unwrap(),
            Ok(after.key_file().unwrap()),
        ),
    ensures
        init_check(after, cipher, new_password) == Ok::<bool, FsError>(false),
        unlocked(cipher, new_password, after.key_file().unwrap()) == unlocked(
            cipher,
            old_password,
            before.key_file().unwrap(),
        ),
        forall|master: Seq<u8>| after.interp(cipher, master) == before.interp(cipher, master),
{
}

/// One operation of the engine that may change the state.
pub enum Op {
    SetClock { now: Timestamp },
    SetSuidSupport { suid_support: bool },
    SetChunkSize { chunk_size: u32 },
    Lookup { parent: u64, name: Seq<u8> },
    CreateNod { parent: u64, name: Seq<u8>, template: FileAttr, read: bool, write: bool },
    Mkdir { parent: u64, name: Seq<u8>, mode: u16 },
    Unlink { parent: u64, name: Seq<u8> },
    Rmdir { parent: u64, name: Seq<u8> },
    Rename { sp: u64, sn: Seq<u8>, dp: u64, dn: Seq<u8> },
    Open { ino: u64, read: bool, write: bool },
    WriteAll { ino: u64, offset: u64, data: Seq<u8>, handle: u64 },
    Flush { handle: u64 },
    Release { handle: u64 },
    SetAttr { ino: u64, set: SetFileAttr },
}

/// The state that an operation leaves.
pub open spec fn apply(s: FsView, op: Op) -> FsView {
    match op {
        Op::SetClock { now } => FsView { clock: now, ..s },
        Op::SetSuidSupport { suid_support } => FsView { suid_support, ..s },
        Op::SetChunkSize { chunk_size } => if MIN_CHUNK_SIZE <= chunk_size <= MAX_CHUNK_SIZE {
            FsView { chunk_size, ..s }
        } else {
            s
        },
        Op::Lookup { parent, name } => s.lookup(parent, name).0,
        Op::CreateNod { parent, name, template, read, write } => s.create_nod(
            parent,
            name,
            template,
            read,
            write,
        ).0,
        Op::Mkdir { parent, name, mode } => s.mkdir(parent, name, mode).0,
        Op::Unlink { parent, name } => s.unlink(parent, name).0,
        Op::Rmdir { parent, name } => s.rmdir(parent, name).0,
        Op::Rename { sp, sn, dp, dn } => s.rename(sp, sn, dp, dn).0,
        Op::Open { ino, read, write } => s.open(ino, read, write).0,
        Op::WriteAll { ino, offset, data, handle } => s.write_all(ino, offset, data, handle).0,
        Op::Flush { handle } => s.flush(handle).0,
        Op::Release { handle } => s.release(handle).0,
        Op::SetAttr { ino, set } => s.setattr(ino, set).0,
    }
}

/// The state after a run of operations.
pub open spec fn run(s: FsView, ops: Seq<Op>) -> FsView
    decreases ops.len(),
{
    if ops.len() == 0 {
        s
    } else {
        apply(run(s, ops.drop_last()), ops.last())
    }
}

/// Whether some handle on the inode has written and not flushed.
pub open spec fn dirty_open(handles: Seq<Handle>, ino: u64) -> bool {
    exists|i: int| 0 <= i < handles.len() && (#[trigger] handles[i]).ino == ino && handles[i].dirty
}

/// Whether the size in the attributes of every regular file is the length
/// of its content, but for files that a handle has written to and not
/// flushed.
pub open spec fn sized(s: FsView) -> bool {
    forall|k: u64|
        s.store.attrs.contains_key(k) && (#[trigger] s.store.attrs[k]) is Some
            && s.store.attrs[k].unwrap().kind == FileType::RegularFile && s.store.is_file(k)
            && !dirty_open(s.handles, k) ==> s.store.file(k).bytes.len()
            == s.store.attrs[k].unwrap().size
}

/// Whether every file is whole: its header authenticates, and so does
/// every one of its bytes.
pub open spec fn whole(s: FsView) -> bool {
    forall|k: u64|
        s.store.nodes.contains_key(k) && (#[trigger] s.store.nodes[k]) is File ==> {
            &&& s.store.file(k).intact
            &&& forall|p: int|
                0 <= p < s.store.file(k).bytes.len() ==> (#[trigger] s.store.file(k).bytes[p])
                    is Some
        }
}

/// Whether the number of every open handle is below the number of the next
/// handle.
pub open spec fn numbered(s: FsView) -> bool {
    forall|i: int| 0 <= i < s.handles.len() ==> (#[trigger] s.handles[i]).id < s.next_handle
}

/// Whether the store is keyed and bounded, the chunk size for new files is
/// within the limits, sizes agree with contents, every file is whole, and
/// the handles are numbered below the next.
pub open spec fn sound(s: FsView) -> bool {
    &&& s.store.keyed()
    &&& s.store.bounded()
    &&& MIN_CHUNK_SIZE <= s.chunk_size <= MAX_CHUNK_SIZE
    &&& sized(s)
    &&& whole(s)
    &&& numbered(s)
}

/// A handle that has not written adds nothing to the handles that have.
proof fn lemma_dirty_push(handles: Seq<Handle>, h: Handle, ino: u64)
    requires
        !h.dirty,
    ensures
        dirty_open(handles.push(h), ino) == dirty_open(handles, ino),
{
    let after = handles.push(h);
    if dirty_open(handles, ino) {
        let i = choose|i: int|
            0 <= i < handles.len() && (#[trigger] handles[i]).ino == ino && handles[i].dirty;
        assert(after[i].ino == ino && after[i].dirty);
    }
    if dirty_open(after, ino) {
        let i = choose|i: int|
            0 <= i < after.len() && (#[trigger] after[i]).ino == ino && after[i].dirty;
        assert(handles[i].ino == ino && handles[i].dirty);
    }
}

/// What a change of one handle's mark makes of the handles that have
/// written: nothing for other inodes; for its own inode the mark decides,
/// or the other handles do.
proof fn lemma_dirty_update(handles: Seq<Handle>, k: int, h: Handle, ino: u64)
    requires
        0 <= k < handles.len(),
        h.ino == handles[k].ino,
    ensures
        ino != h.ino ==> dirty_open(handles.update(k, h), ino) == dirty_open(handles, ino),
        h.dirty ==> dirty_open(handles.update(k, h), h.ino),
        !h.dirty ==> (dirty_open(handles.update(k, h), ino) ==> dirty_open(handles, ino)),
{
    let after = handles.update(k, h);
    if dirty_open(handles, ino) && ino != h.ino {
        let i = choose|i: int|
            0 <= i < handles.len() && (#[trigger] handles[i]).ino == ino && handles[i].dirty;
        assert(after[i].ino == ino && after[i].dirty);
    }
    if dirty_open(after, ino) {
        let i = choose|i: int|
            0 <= i < after.len() && (#[trigger] after[i]).ino == ino && after[i].dirty;
        if i != k {
            assert(handles[i].ino == ino && handles[i].dirty);
        }
    }
    if h.dirty {
        assert(after[k].ino == h.ino && after[k].dirty);
    }
}

/// Closing a handle adds nothing to the handles that have written, and
/// takes nothing away where the handle had not written.
proof fn lemma_dirty_remove(handles: Seq<Handle>, k: int, ino: u64)
    requires
        0 <= k < handles.len(),
    ensures
        dirty_open(handles.remove(k), ino) ==> dirty_open(handles, ino),
        !handles[k].dirty || handles[k].ino != ino ==> (dirty_open(handles, ino) ==> dirty_open(
            handles.remove(k),
            ino,
        )),
{
    let after = handles.remove(k);
    if dirty_open(after, ino) {
        let i = choose|i: int|
            0 <= i < after.len() && (#[trigger] after[i]).ino == ino && after[i].dirty;
        let j = if i < k {
            i
        } else {
            i + 1
        };
        assert(handles[j].ino == ino && handles[j].dirty);
    }
    if dirty_open(handles, ino) && (!handles[k].dirty || handles[k].ino != ino) {
        let i = choose|i: int|
            0 <= i < handles.len() && (#[trigger] handles[i]).ino == ino && handles[i].dirty;
        let j = if i < k {
            i
        } else {
            i - 1
        };
        assert(after[j].ino == ino && after[j].dirty);
    }
}

/// `create_nod` keeps the state sound.
proof fn lemma_sound_create_nod(s: FsView, parent: u64, name: Seq<u8>, template: FileAttr, read: bool, write: bool)
    requires
        sound(s),
    ensures
        sound(s.create_nod(parent, name, template, read, write).0),
{
    let t = s.create_nod(parent, name, template, read, write).0;
    if s.create_nod(parent, name, template, read, write).1 is Ok {
        assert forall|k: u64|
            t.store.attrs.contains_key(k) && (#[trigger] t.store.attrs[k]) is Some
                && t.store.attrs[k].unwrap().kind == FileType::RegularFile && t.store.is_file(k)
                && !dirty_open(t.handles, k) implies t.store.file(k).bytes.len()
            == t.store.attrs[k].unwrap().size by {
            if read || write {
                lemma_dirty_push(s.handles, t.handles.last(), k);
            }
            if k != s.next_ino {
                assert(s.store.attrs[k] is Some);
            }
        }
    }
}

/// `mkdir` keeps the state sound.
proof fn lemma_sound_mkdir(s: FsView, parent: u64, name: Seq<u8>, mode: u16)
    requires
        sound(s),
    ensures
        sound(s.mkdir(parent, name, mode).0),
{
}

/// `unlink` keeps the state sound.
proof fn lemma_sound_unlink(s: FsView, parent: u64, name: Seq<u8>)
    requires
        sound(s),
    ensures
        sound(s.unlink(parent, name).0),
{
}

/// `rmdir` keeps the state sound.
proof fn lemma_sound_rmdir(s: FsView, parent: u64, name: Seq<u8>)
    requires
        sound(s),
    ensures
        sound(s.rmdir(parent, name).0),
{
}

/// `rename` keeps the state sound.
proof fn lemma_sound_rename(s: FsView, sp: u64, sn: Seq<u8>, dp: u64, dn: Seq<u8>)
    requires
        sound(s),
    ensures
        sound(s.rename(sp, sn, dp, dn).0),
{
}

/// `open` keeps the state sound.
proof fn lemma_sound_open(s: FsView, ino: u64, read: bool, write: bool)
    requires
        sound(s),
    ensures
        sound(s.open(ino, read, write).0),
{
    let t = s.open(ino, read, write).0;
    if s.open(ino, read, write).1 is Ok {
        assert forall|k: u64|
            t.store.attrs.contains_key(k) && (#[trigger] t.store.attrs[k]) is Some
                && t.store.attrs[k].unwrap().kind == FileType::RegularFile && t.store.is_file(k)
                && !dirty_open(t.handles, k) implies t.store.file(k).bytes.len()
            == t.store.attrs[k].unwrap().size by {
            lemma_dirty_push(s.handles, t.handles.last(), k);
        }
    }
}

/// `write_all` keeps the state sound.
proof fn lemma_sound_write_all(s: FsView, ino: u64, offset: u64, data: Seq<u8>, handle: u64)
    requires
        sound(s),
    ensures
        sound(s.write_all(ino, offset, data, handle).0),
{
    let t = s.write_all(ino, offset, data, handle).0;
    if s.write_all(ino, offset, data, handle).1 is Ok {
        let i = handle_index(s.handles, handle).unwrap();
        assert(s.store.nodes[ino] is File);
        assert forall|k: u64|
            t.store.attrs.contains_key(k) && (#[trigger] t.store.attrs[k]) is Some
                && t.store.attrs[k].unwrap().kind == FileType::RegularFile && t.store.is_file(k)
                && !dirty_open(t.handles, k) implies t.store.file(k).bytes.len()
            == t.store.attrs[k].unwrap().size by {
            lemma_dirty_update(s.handles, i, Handle { dirty: true, ..s.handles[i] }, k);
        }
        assert forall|k: u64|
            t.store.nodes.contains_key(k) && (#[trigger] t.store.nodes[k]) is File implies {
            &&& MIN_CHUNK_SIZE <= t.store.file(k).chunk_size <= MAX_CHUNK_SIZE
            &&& t.store.file(k).bytes.len() <= t.store.file(k).chunk_size * MAX_CHUNKS
        } by {
            if k != ino {
                assert(s.store.nodes[k] is File);
            }
        }
    }
}

/// `flush` keeps the state sound.
proof fn lemma_sound_flush(s: FsView, handle: u64)
    requires
        sound(s),
    ensures
        sound(s.flush(handle).0),
{
    let t = s.flush(handle).0;
    if s.flush(handle).1 is Ok && handle_index(s.handles, handle) is Some {
        let i = handle_index(s.handles, handle).unwrap();
        let h = s.handles[i];
        if h.dirty {
            assert(s.store.attrs[h.ino] is Some);
            assert(s.store.nodes[h.ino] is File);
            assert(s.store.file(h.ino).chunk_size * MAX_CHUNKS <= u64::MAX) by (nonlinear_arith)
                requires
                    s.store.file(h.ino).chunk_size <= 0x100_0000,
                    MAX_CHUNKS == 0x1000_0000,
            ;
            assert forall|k: u64|
                t.store.attrs.contains_key(k) && (#[trigger] t.store.attrs[k]) is Some
                    && t.store.attrs[k].unwrap().kind == FileType::RegularFile && t.store.is_file(
                    k,
                ) && !dirty_open(t.handles, k) implies t.store.file(k).bytes.len()
                == t.store.attrs[k].unwrap().size by {
                lemma_dirty_update(s.handles, i, Handle { dirty: false, ..h }, k);
                if k != h.ino {
                    assert(s.store.attrs[k] is Some);
                }
            }
        }
    }
}

/// `release` keeps the state sound.
proof fn lemma_sound_release(s: FsView, handle: u64)
    requires
        sound(s),
    ensures
        sound(s.release(handle).0),
{
    let t = s.release(handle).0;
    if s.release(handle).1 is Ok {
        lemma_sound_flush(s, handle);
        let f = s.flush(handle).0;
        let i = handle_index(s.handles, handle).unwrap();
        assert(!f.handles[i].dirty);
        assert forall|k: u64|
            t.store.attrs.contains_key(k) && (#[trigger] t.store.attrs[k]) is Some
                && t.store.attrs[k].unwrap().kind == FileType::RegularFile && t.store.is_file(k)
                && !dirty_open(t.handles, k) implies t.store.file(k).bytes.len()
            == t.store.attrs[k].unwrap().size by {
            lemma_dirty_remove(f.handles, i, k);
            assert(f.store.attrs[k] is Some);
        }
    }
}

/// `setattr` keeps the state sound.
proof fn lemma_sound_setattr(s: FsView, ino: u64, set: SetFileAttr)
    requires
        sound(s),
    ensures
        sound(s.setattr(ino, set).0),
{
}

/// Every operation keeps the state sound: in particular the size of every
/// regular file stays the length of its content.
pub proof fn lemma_sound_step(s: FsView, op: Op)
    requires
        sound(s),
    ensures
        sound(apply(s, op)),
{
    match op {
        Op::SetClock { now } => {},
        Op::SetSuidSupport { suid_support } => {},
        Op::SetChunkSize { chunk_size } => {},
        Op::Lookup { parent, name } => {},
        Op::CreateNod { parent, name, template, read, write } => {
            lemma_sound_create_nod(s, parent, name, template, read, write);
        },
        Op::Mkdir { parent, name, mode } => {
            lemma_sound_mkdir(s, parent, name, mode);
        },
        Op::Unlink { parent, name } => {
            lemma_sound_unlink(s, parent, name);
        },
        Op::Rmdir { parent, name } => {
            lemma_sound_rmdir(s, parent, name);
        },
        Op::Rename { sp, sn, dp, dn } => {
            lemma_sound_rename(s, sp, sn, dp, dn);
        },
        Op::Open { ino, read, write } => {
            lemma_sound_open(s, ino, read, write);
        },
        Op::WriteAll { ino, offset, data, handle } => {
            lemma_sound_write_all(s, ino, offset, data, handle);
        },
        Op::Flush { handle } => {
            lemma_sound_flush(s, handle);
        },
        Op::Release { handle } => {
            lemma_sound_release(s, handle);
        },
        Op::SetAttr { ino, set } => {
            lemma_sound_setattr(s, ino, set);
        },
    }
}

/// A sound state stays sound whatever is done with it.
pub proof fn lemma_sound_run(s: FsView, ops: Seq<Op>)
    requires
        sound(s),
    ensures
        sound(run(s, ops)),
    decreases ops.len(),
{
    if ops.len() > 0 {
        lemma_sound_run(s, ops.drop_last());
        lemma_sound_step(run(s, ops.drop_last()), ops.last());
    }
}

/// Whether place `i` of the folder of directory `d` holds an entry.
pub open spec fn held(s: FsView, d: u64, i: int) -> bool {
    s.store.is_folder(d) && 0 <= i < s.store.slots(d).len() && s.store.slots(d)[i] is Some
}

/// The entry at place `i` of directory `d`.
pub open spec fn entry_at(s: FsView, d: u64, i: int) -> Entry {
    s.store.slots(d)[i].unwrap()
}

/// Whether the root is a directory with a readable record.
pub open spec fn rooted(s: FsView) -> bool {
    &&& s.store.attrs.contains_key(ROOT_INODE)
    &&& s.store.attrs[ROOT_INODE] is Some
    &&& s.store.attrs[ROOT_INODE].unwrap().kind == FileType::Directory
    &&& s.store.attrs[ROOT_INODE].unwrap().nlink > 0
}

/// Whether every entry leads to an inode other than the root that has a
/// readable record of the entry's kind and a link count above 0.
pub open spec fn linked(s: FsView) -> bool {
    forall|d: u64, i: int| #[trigger]
        held(s, d, i) ==> {
            let e = entry_at(s, d, i);
            &&& e.ino != ROOT_INODE
            &&& s.store.attrs.contains_key(e.ino)
            &&& s.store.attrs[e.ino] is Some
            &&& s.store.attrs[e.ino].unwrap().kind == e.kind
            &&& s.store.attrs[e.ino].unwrap().nlink > 0
        }
}

/// Whether no two entries lead to the same inode.
pub open spec fn single(s: FsView) -> bool {
    forall|d: u64, i: int, d2: u64, j: int|
        #[trigger] held(s, d, i) && #[trigger] held(s, d2, j) && entry_at(s, d, i).ino == entry_at(
            s,
            d2,
            j,
        ).ino ==> d == d2 && i == j
}

/// Whether no two entries of one directory have the same name.
pub open spec fn distinct(s: FsView) -> bool {
    forall|d: u64, i: int, j: int|
        #[trigger] held(s, d, i) && #[trigger] held(s, d, j) && entry_at(s, d, i).name == entry_at(
            s,
            d,
            j,
        ).name ==> i == j
}

/// Whether the directories form a tree: the store is keyed, new inode
/// numbers are fresh, the root is a directory, every entry leads to a
/// record of its kind, no inode has two entries, and no directory has two
/// entries of one name.
pub open spec fn tree(s: FsView) -> bool {
    &&& s.store.keyed()
    &&& s.fresh()
    &&& rooted(s)
    &&& linked(s)
    &&& single(s)
    &&& distinct(s)
}

/// Whether an entry leads to an inode other than the root that has a
/// readable record of the entry's kind and a link count above 0.
pub open spec fn leads(s: FsView, e: Entry) -> bool {
    &&& e.ino != ROOT_INODE
    &&& s.store.attrs.contains_key(e.ino)
    &&& s.store.attrs[e.ino] is Some
    &&& s.store.attrs[e.ino].unwrap().kind == e.kind
    &&& s.store.attrs[e.ino].unwrap().nlink > 0
}

/// A state whose entries, but for the one at place `n` of directory `p`,
/// are entries of a tree, each found there in its own directory at the
/// place that `f` names, is a tree, if the one entry shares neither its
/// inode with another entry nor its name with another entry of `p`.
proof fn lemma_tree_embed(s: FsView, t: FsView, f: spec_fn(u64, int) -> int, p: u64, n: int)
    requires
        tree(s),
        t.store.keyed(),
        t.fresh(),
        rooted(t),
        forall|d: u64, i: int|
            #[trigger] held(t, d, i) && !(d == p && i == n) ==> held(s, d, f(d, i)) && entry_at(
                s,
                d,
                f(d, i),
            ) == entry_at(t, d, i),
        forall|d: u64, i: int, j: int|
            #[trigger] held(t, d, i) && #[trigger] held(t, d, j) && !(d == p && i == n) && !(d == p
                && j == n) && f(d, i) == f(d, j) ==> i == j,
        forall|d: u64, i: int| #[trigger] held(t, d, i) ==> leads(t, entry_at(t, d, i)),
        held(t, p, n) ==> forall|d: u64, i: int|
            #[trigger] held(t, d, i) && !(d == p && i == n) ==> entry_at(t, d, i).ino != entry_at(
                t,
                p,
                n,
            ).ino && (d == p ==> entry_at(t, d, i).name != entry_at(t, p, n).name),
    ensures
        tree(t),
{
    assert forall|d: u64, i: int, d2: u64, j: int|
        #[trigger] held(t, d, i) && #[trigger] held(t, d2, j) && entry_at(t, d, i).ino == entry_at(
            t,
            d2,
            j,
        ).ino implies d == d2 && i == j by {
        let x = d == p && i == n;
        let y = d2 == p && j == n;
        if !x && !y {
            assert(held(s, d, f(d, i)));
            assert(held(s, d2, f(d2, j)));
        }
    }
    assert forall|d: u64, i: int, j: int|
        #[trigger] held(t, d, i) && #[trigger] held(t, d, j) && entry_at(t, d, i).name == entry_at(
            t,
            d,
            j,
        ).name implies i == j by {
        let x = d == p && i == n;
        let y = d == p && j == n;
        if !x && !y {
            assert(held(s, d, f(d, i)));
            assert(held(s, d, f(d, j)));
        }
    }
}

/// A state with the folders of a tree, in which every inode that an entry
/// leads to has kept its kind and a link count above 0, is a tree.
proof fn lemma_tree_attrs(s: FsView, t: FsView)
    requires
        tree(s),
        t.store.keyed(),
        t.fresh(),
        rooted(t),
        forall|d: u64| #[trigger]
            t.store.is_folder(d) ==> s.store.is_folder(d) && s.store.slots(d) == t.store.slots(d),
        forall|k: u64|
            s.store.attrs.contains_key(k) && (#[trigger] s.store.attrs[k]) is Some
                && s.store.attrs[k].unwrap().nlink > 0 ==> t.store.attrs.contains_key(k)
                && t.store.attrs[k] is Some && t.store.attrs[k].unwrap().kind
                == s.store.attrs[k].unwrap().kind && t.store.attrs[k].unwrap().nlink > 0,
    ensures
        tree(t),
{
    let f = |d: u64, i: int| i;
    assert forall|d: u64, i: int| #[trigger] held(t, d, i) implies held(s, d, f(d, i)) && entry_at(
        s,
        d,
        f(d, i),
    ) == entry_at(t, d, i) && leads(t, entry_at(t, d, i)) by {
        assert(t.store.is_folder(d));
        assert(held(s, d, i));
        assert(s.store.attrs[entry_at(s, d, i).ino] is Some);
    }
    lemma_tree_embed(s, t, f, 0, -1);
}

/// Where a name has no place in a listing, no entry of the listing has it.
proof fn lemma_unnamed(es: Seq<Entry>, name: Seq<u8>)
    requires
        position(es, name) is None,
    ensures
        forall|j: int| 0 <= j < es.len() ==> (#[trigger] es[j]).name != name,
{
    assert forall|j: int| 0 <= j < es.len() implies (#[trigger] es[j]).name != name by {
        if es[j].name == name {
            lemma_named(es, name, j);
        }
    }
}

/// A tree to which the entry of a new inode is added is a tree.
proof fn lemma_tree_added(s: FsView, t: FsView, parent: u64, name: Seq<u8>, a: FileAttr)
    requires
        tree(s),
        s.can_add(parent, name) is Ok,
        a.ino == s.next_ino,
        a.nlink > 0,
        t.next_ino == s.next_ino + 1,
        t.store.attrs == s.linked(
            parent,
            s.can_add(parent, name).unwrap().0,
            s.can_add(parent, name).unwrap().1.len() as int,
            name,
            a,
        ).attrs,
        forall|d: u64| #[trigger]
            t.store.is_folder(d) ==> d != a.ino && s.linked(
                parent,
                s.can_add(parent, name).unwrap().0,
                s.can_add(parent, name).unwrap().1.len() as int,
                name,
                a,
            ).is_folder(d) && t.store.slots(d) == s.linked(
                parent,
                s.can_add(parent, name).unwrap().0,
                s.can_add(parent, name).unwrap().1.len() as int,
                name,
                a,
            ).slots(d) || t.store.slots(d).len() == 0,
        forall|k: u64| #[trigger] t.store.nodes.contains_key(k) ==> k == a.ino || s.store.nodes.contains_key(k),
    ensures
        tree(t),
{
    let (pa, es) = s.can_add(parent, name).unwrap();
    let n = es.len() as int;
    let slots = s.store.slots(parent);
    lemma_unnamed(es, name);
    assert(s.store.attrs[parent] is Some);
    assert(pa.ino == parent);
    let f = |d: u64, i: int| i;
    assert forall|d: u64, i: int| #[trigger] held(t, d, i) implies leads(t, entry_at(t, d, i)) && (!(d
        == parent && i == n) ==> held(s, d, f(d, i)) && entry_at(s, d, f(d, i)) == entry_at(t, d, i)
        && entry_at(t, d, i).ino != a.ino && (d == parent ==> entry_at(t, d, i).name != name)) by {
        assert(t.store.is_folder(d));
        if !(d == parent && i == n) {
            assert(held(s, d, i));
            let e = entry_at(s, d, i);
            assert(s.store.attrs[e.ino] is Some);
            if d == parent {
                assert(es[i].name != name);
            }
        }
    }
    assert(t.store.keyed()) by {
        assert forall|k: u64|
            t.store.attrs.contains_key(k) && (#[trigger] t.store.attrs[k]) is Some implies t.store.attrs[k].unwrap().ino
            == k by {
            if k != parent && k != a.ino {
                assert(s.store.attrs[k] is Some);
            }
        }
    }
    lemma_tree_embed(s, t, f, parent, n);
}

/// `create_nod` keeps the directories a tree.
proof fn lemma_tree_create_nod(
    s: FsView,
    parent: u64,
    name: Seq<u8>,
    template: FileAttr,
    read: bool,
    write: bool,
)
    requires
        tree(s),
    ensures
        tree(s.create_nod(parent, name, template, read, write).0),
{
    let r = s.create_nod(parent, name, template, read, write);
    if r.1 is Ok {
        lemma_tree_added(s, r.0, parent, name, s.file_attr(template));
    }
}

/// `mkdir` keeps the directories a tree.
proof fn lemma_tree_mkdir(s: FsView, parent: u64, name: Seq<u8>, mode: u16)
    requires
        tree(s),
    ensures
        tree(s.mkdir(parent, name, mode).0),
{
    let r = s.mkdir(parent, name, mode);
    if r.1 is Ok {
        let pa = s.can_add(parent, name).unwrap().0;
        lemma_tree_added(s, r.0, parent, name, s.dir_attr(pa, mode));
    }
}

/// A tree from which the entry at place `i0` of `parent` is taken out, and
/// in which the inode of that entry may have lost its record or its link
/// count, is a tree.
proof fn lemma_tree_removed(s: FsView, t: FsView, parent: u64, i0: int)
    requires
        tree(s),
        held(s, parent, i0),
        t.next_ino == s.next_ino,
        t.store.keyed(),
        rooted(t),
        forall|k: u64| #[trigger] t.store.attrs.contains_key(k) ==> s.store.attrs.contains_key(k),
        forall|k: u64| #[trigger] t.store.nodes.contains_key(k) ==> s.store.nodes.contains_key(k),
        forall|d: u64| #[trigger]
            t.store.is_folder(d) ==> s.store.is_folder(d) && t.store.slots(d) == if d == parent {
                s.store.slots(d).remove(i0)
            } else {
                s.store.slots(d)
            },
        forall|k: u64|
            k != entry_at(s, parent, i0).ino && s.store.attrs.contains_key(k) && (
            #[trigger] s.store.attrs[k]) is Some ==> t.store.attrs.contains_key(k)
                && t.store.attrs[k] is Some && t.store.attrs[k].unwrap().kind
                == s.store.attrs[k].unwrap().kind && t.store.attrs[k].unwrap().nlink
                == s.store.attrs[k].unwrap().nlink,
    ensures
        tree(t),
{
    let f = |d: u64, i: int|
        if d == parent && i >= i0 {
            i + 1
        } else {
            i
        };
    assert forall|d: u64, i: int| #[trigger] held(t, d, i) implies held(s, d, f(d, i)) && entry_at(
        s,
        d,
        f(d, i),
    ) == entry_at(t, d, i) && leads(t, entry_at(t, d, i)) by {
        assert(t.store.is_folder(d));
        assert(held(s, d, f(d, i)));
        let e = entry_at(s, d, f(d, i));
        assert(s.store.attrs[e.ino] is Some);
    }
    lemma_tree_embed(s, t, f, 0, -1);
}

/// `unlink` keeps the directories a tree.
proof fn lemma_tree_unlink(s: FsView, parent: u64, name: Seq<u8>)
    requires
        tree(s),
    ensures
        tree(s.unlink(parent, name).0),
{
    let r = s.unlink(parent, name);
    if r.1 is Ok {
        let t = r.0;
        let (pa, es) = s.open_dir(parent).unwrap();
        let i0 = position(es, name).unwrap();
        assert(first_named(es, name, i0));
        let a = s.store.attr(es[i0].ino).unwrap();
        assert(held(s, parent, i0));
        assert(s.store.attrs[parent] is Some);
        assert(s.store.attrs[es[i0].ino] is Some);
        assert(a.ino == es[i0].ino);
        assert(pa.ino == parent);
        lemma_tree_removed(s, t, parent, i0);
    }
}

/// `rmdir` keeps the directories a tree.
proof fn lemma_tree_rmdir(s: FsView, parent: u64, name: Seq<u8>)
    requires
        tree(s),
    ensures
        tree(s.rmdir(parent, name).0),
{
    let r = s.rmdir(parent, name);
    if r.1 is Ok {
        let t = r.0;
        let (pa, es) = s.open_dir(parent).unwrap();
        let i0 = position(es, name).unwrap();
        assert(first_named(es, name, i0));
        assert(held(s, parent, i0));
        assert(s.store.attrs[parent] is Some);
        assert(pa.ino == parent);
        assert(es[i0].ino != parent) by {
            if es[i0].ino == parent {
                assert(s.store.entries(parent).unwrap().len() > 0);
            }
        }
        lemma_tree_removed(s, t, parent, i0);
    }
}

/// `release` keeps the directories a tree.
proof fn lemma_tree_release(s: FsView, handle: u64)
    requires
        tree(s),
    ensures
        tree(s.release(handle).0),
{
    let r = s.release(handle);
    if r.1 is Ok {
        lemma_tree_flush(s, handle);
        let fl = s.flush(handle).0;
        let t = r.0;
        let f = |d: u64, i: int| i;
        assert forall|d: u64, i: int| #[trigger] held(t, d, i) implies held(fl, d, f(d, i))
            && entry_at(fl, d, f(d, i)) == entry_at(t, d, i) && leads(t, entry_at(t, d, i)) by {
            assert(t.store.is_folder(d));
            assert(held(fl, d, i));
            let e = entry_at(fl, d, i);
            assert(fl.store.attrs[e.ino] is Some);
        }
        lemma_tree_embed(fl, t, f, 0, -1);
    }
}

/// `rename` keeps the directories a tree.
proof fn lemma_tree_rename(s: FsView, sp: u64, sn: Seq<u8>, dp: u64, dn: Seq<u8>)
    requires
        tree(s),
    ensures
        tree(s.rename(sp, sn, dp, dn).0),
{
    let r = s.rename(sp, sn, dp, dn);
    let t = r.0;
    if r.1 is Ok {
        let (spa, ses) = s.open_dir(sp).unwrap();
        let (dpa, des) = s.open_dir(dp).unwrap();
        let i0 = position(ses, sn).unwrap();
        assert(first_named(ses, sn, i0));
        let src = ses[i0];
        let sa = s.store.attr(src.ino).unwrap();
        let same = position(des, dn) is Some && des[position(des, dn).unwrap()].ino == src.ino;
        if !same {
            let target = s.rename_target(src, des, dn).unwrap();
            assert(held(s, sp, i0));
            assert(entry_at(s, sp, i0) == src);
            assert(s.store.attrs[sp] is Some);
            assert(s.store.attrs[dp] is Some);
            assert(s.store.attrs[src.ino] is Some);
            assert(spa.ino == sp && dpa.ino == dp && sa.ino == src.ino);
            let base = match target {
                Some((j0, _)) => j0,
                None => des.len() as int,
            };
            let n = if sp == dp && base > i0 {
                base - 1
            } else {
                base
            };
            match target {
                Some((j0, da)) => {
                    assert(first_named(des, dn, j0));
                    assert(held(s, dp, j0));
                    assert(entry_at(s, dp, j0) == des[j0]);
                    assert(s.store.attrs[des[j0].ino] is Some);
                    assert(da.ino == des[j0].ino);
                    assert(da.ino != sp && da.ino != dp) by {
                        if des[j0].kind == FileType::Directory {
                            let inner = s.store.entries(des[j0].ino).unwrap();
                            assert(inner.len() == 0);
                        }
                    }
                    assert(src.kind == FileType::Directory <==> des[j0].kind
                        == FileType::Directory);
                },
                None => {
                    lemma_unnamed(des, dn);
                },
            }
            let f = |d: u64, i: int|
                if d == sp && i >= i0 {
                    i + 1
                } else {
                    i
                };
            assert(rooted(t));
            assert forall|d: u64, i: int| #[trigger] held(t, d, i) implies leads(
                t,
                entry_at(t, d, i),
            ) && (!(d == dp && i == n) ==> held(s, d, f(d, i)) && entry_at(s, d, f(d, i))
                == entry_at(t, d, i) && entry_at(t, d, i).ino != src.ino && (d == dp ==> entry_at(
                t,
                d,
                i,
            ).name != dn)) && (d == dp && i == n ==> entry_at(t, d, i).ino == src.ino
                && entry_at(t, d, i).name == dn) by {
                assert(t.store.is_folder(d));
                if !(d == dp && i == n) {
                    assert(held(s, d, f(d, i)));
                    let e = entry_at(s, d, f(d, i));
                    assert(s.store.attrs[e.ino] is Some);
                    match target {
                        Some((j0, da)) => {
                            assert(!(d == dp && f(d, i) == j0));
                            assert(e.ino != da.ino);
                            if d == dp {
                                assert(e.name != des[j0].name);
                            }
                        },
                        None => {
                            if d == dp {
                                assert(des[f(d, i)].name != dn);
                            }
                        },
                    }
                }
            }
            assert(t.fresh()) by {
                assert forall|k: u64| #[trigger] t.store.attrs.contains_key(k) implies s.store.attrs.contains_key(k) by {}
                assert forall|k: u64| #[trigger] t.store.nodes.contains_key(k) implies s.store.nodes.contains_key(k) by {}
            }
            lemma_tree_embed(s, t, f, dp, n);
        }
    }
}

/// `open` keeps the directories a tree.
proof fn lemma_tree_open(s: FsView, ino: u64, read: bool, write: bool)
    requires
        tree(s),
    ensures
        tree(s.open(ino, read, write).0),
{
    let t = s.open(ino, read, write).0;
    assert forall|k: u64| t.store.attrs.contains_key(k) implies s.store.attrs.contains_key(k) by {
        if !s.store.attrs.contains_key(k) {
            assert forall|x: u64|
                s.store.attrs.contains_key(x) && (#[trigger] s.store.attrs[x]) is Some implies s.store.attrs[x].unwrap().ino
                == x by {}
        }
    }
    lemma_tree_attrs(s, t);
}

/// `write_all` keeps the directories a tree.
proof fn lemma_tree_write_all(s: FsView, ino: u64, offset: u64, data: Seq<u8>, handle: u64)
    requires
        tree(s),
    ensures
        tree(s.write_all(ino, offset, data, handle).0),
{
    let t = s.write_all(ino, offset, data, handle).0;
    assert forall|k: u64| t.store.attrs.contains_key(k) implies s.store.attrs.contains_key(k) by {
        if !s.store.attrs.contains_key(k) {
            assert forall|x: u64|
                s.store.attrs.contains_key(x) && (#[trigger] s.store.attrs[x]) is Some implies s.store.attrs[x].unwrap().ino
                == x by {}
        }
    }
    lemma_tree_attrs(s, t);
}

/// `flush` keeps the directories a tree.
proof fn lemma_tree_flush(s: FsView, handle: u64)
    requires
        tree(s),
    ensures
        tree(s.flush(handle).0),
{
    let t = s.flush(handle).0;
    assert forall|k: u64| t.store.attrs.contains_key(k) implies s.store.attrs.contains_key(k) by {
        if !s.store.attrs.contains_key(k) {
            assert forall|x: u64|
                s.store.attrs.contains_key(x) && (#[trigger] s.store.attrs[x]) is Some implies s.store.attrs[x].unwrap().ino
                == x by {}
        }
    }
    lemma_tree_attrs(s, t);
}

/// `setattr` keeps the directories a tree.
proof fn lemma_tree_setattr(s: FsView, ino: u64, set: SetFileAttr)
    requires
        tree(s),
    ensures
        tree(s.setattr(ino, set).0),
{
    let t = s.setattr(ino, set).0;
    assert forall|k: u64| t.store.attrs.contains_key(k) implies s.store.attrs.contains_key(k) by {
        if !s.store.attrs.contains_key(k) {
            assert forall|x: u64|
                s.store.attrs.contains_key(x) && (#[trigger] s.store.attrs[x]) is Some implies s.store.attrs[x].unwrap().ino
                == x by {}
        }
    }
    lemma_tree_attrs(s, t);
}

/// `lookup` keeps the directories a tree.
proof fn lemma_tree_lookup(s: FsView, parent: u64, name: Seq<u8>)
    requires
        tree(s),
    ensures
        tree(s.lookup(parent, name).0),
{
    let t = s.lookup(parent, name).0;
    assert forall|k: u64| t.store.attrs.contains_key(k) implies s.store.attrs.contains_key(k) by {
        if !s.store.attrs.contains_key(k) {
            assert forall|x: u64|
                s.store.attrs.contains_key(x) && (#[trigger] s.store.attrs[x]) is Some implies s.store.attrs[x].unwrap().ino
                == x by {}
        }
    }
    lemma_tree_attrs(s, t);
}

/// Every operation keeps the directories a tree.
pub proof fn lemma_tree_step(s: FsView, op: Op)
    requires
        tree(s),
    ensures
        tree(apply(s, op)),
{
    match op {
        Op::SetClock { now } => {
            lemma_tree_attrs(s, apply(s, op));
        },
        Op::SetSuidSupport { suid_support } => {
            lemma_tree_attrs(s, apply(s, op));
        },
        Op::SetChunkSize { chunk_size } => {
            lemma_tree_attrs(s, apply(s, op));
        },
        Op::Lookup { parent, name } => {
            lemma_tree_lookup(s, parent, name);
        },
        Op::CreateNod { parent, name, template, read, write } => {
            lemma_tree_create_nod(s, parent, name, template, read, write);
        },
        Op::Mkdir { parent, name, mode } => {
            lemma_tree_mkdir(s, parent, name, mode);
        },
        Op::Unlink { parent, name } => {
            lemma_tree_unlink(s, parent, name);
        },
        Op::Rmdir { parent, name } => {
            lemma_tree_rmdir(s, parent, name);
        },
        Op::Rename { sp, sn, dp, dn } => {
            lemma_tree_rename(s, sp, sn, dp, dn);
        },
        Op::Open { ino, read, write } => {
            lemma_tree_open(s, ino, read, write);
        },
        Op::WriteAll { ino, offset, data, handle } => {
            lemma_tree_write_all(s, ino, offset, data, handle);
        },
        Op::Flush { handle } => {
            lemma_tree_flush(s, handle);
        },
        Op::Release { handle } => {
            lemma_tree_release(s, handle);
        },
        Op::SetAttr { ino, set } => {
            lemma_tree_setattr(s, ino, set);
        },
    }
}

/// The directories stay a tree whatever is done with the file system.
pub proof fn lemma_tree_run(s: FsView, ops: Seq<Op>)
    requires
        tree(s),
    ensures
        tree(run(s, ops)),
    decreases ops.len(),
{
    if ops.len() > 0 {
        lemma_tree_run(s, ops.drop_last());
        lemma_tree_step(run(s, ops.drop_last()), ops.last());
    }
}

/// A file system that was just made on an empty data directory is sound and
/// a tree.
pub proof fn lemma_new_file_system(empty: StoreView, next_ino: u64)
    requires
        empty.attrs == Map::<u64, Option<FileAttr>>::empty(),
        empty.nodes == Map::<u64, NodeView>::empty(),
        next_ino > ROOT_INODE,
    ensures
        sound(mounted(empty.with_folder(ROOT_INODE, Seq::empty()).with_attr(root_attr()), next_ino)),
        tree(mounted(empty.with_folder(ROOT_INODE, Seq::empty()).with_attr(root_attr()), next_ino)),
{
}

/// Mounting an empty data directory gives a sound tree.
pub proof fn lemma_fresh_mount(data: DataDir, cipher: Cipher, master: Seq<u8>, next_ino: u64)
    requires
        data.is_empty(),
        next_ino > ROOT_INODE,
    ensures
        sound(
            mounted(
                data.interp(cipher, master).with_folder(ROOT_INODE, Seq::empty()).with_attr(
                    root_attr(),
                ),
                next_ino,
            ),
        ),
        tree(
            mounted(
                data.interp(cipher, master).with_folder(ROOT_INODE, Seq::empty()).with_attr(
                    root_attr(),
                ),
                next_ino,
            ),
        ),
{
    let empty = data.interp(cipher, master);
    assert(empty.attrs =~= Map::<u64, Option<FileAttr>>::empty());
    assert(empty.nodes =~= Map::<u64, NodeView>::empty());
    lemma_new_file_system(empty, next_ino);
}

/// A file system that is mounted again on what a sound tree has left, with
/// no handle that had written and not flushed, is a sound tree again.
pub proof fn lemma_mounted_again(s: FsView, next_ino: u64)
    requires
        sound(s),
        tree(s),
        forall|k: u64| !dirty_open(s.handles, k),
        next_ino >= s.next_ino,
    ensures
        sound(mounted(s.store, next_ino)),
        tree(mounted(s.store, next_ino)),
{
    let t = mounted(s.store, next_ino);
    assert forall|k: u64|
        t.store.attrs.contains_key(k) && (#[trigger] t.store.attrs[k]) is Some
            && t.store.attrs[k].unwrap().kind == FileType::RegularFile && t.store.is_file(k)
            && !dirty_open(t.handles, k) implies t.store.file(k).bytes.len()
        == t.store.attrs[k].unwrap().size by {
        assert(!dirty_open(s.handles, k));
    }
    lemma_tree_attrs(s, t);
}

/// Whether an inode is found from the root through `n` directory entries.
pub open spec fn reaches(s: FsView, ino: u64, n: nat) -> bool
    decreases n,
{
    if n == 0 {
        ino == ROOT_INODE
    } else {
        exists|d: u64, i: int|
            reaches(s, d, (n - 1) as nat) && #[trigger] held(s, d, i) && entry_at(s, d, i).ino
                == ino
    }
}

/// In a tree every inode that is found from the root has readable
/// attributes, of the kind that every entry that leads to it records.
pub proof fn lemma_reachable(s: FsView, ino: u64, n: nat)
    requires
        tree(s),
        reaches(s, ino, n),
    ensures
        s.read_attr(ino) is Ok,
        forall|d: u64, i: int|
            #[trigger] held(s, d, i) && entry_at(s, d, i).ino == ino ==> s.read_attr(
                ino,
            ).unwrap().kind == entry_at(s, d, i).kind,
{
    if n > 0 {
        let (d, i) = choose|d: u64, i: int|
            reaches(s, d, (n - 1) as nat) && #[trigger] held(s, d, i) && entry_at(s, d, i).ino
                == ino;
        assert(held(s, d, i));
    }
}

/// Number of entries with the given name.
pub open spec fn name_count(es: Seq<Entry>, name: Seq<u8>) -> nat
    decreases es.len(),
{
    if es.len() == 0 {
        0
    } else {
        name_count(es.drop_last(), name) + if es.last().name == name {
            1nat
        } else {
            0nat
        }
    }
}

/// Names are counted piece by piece.
pub proof fn lemma_name_count_add(a: Seq<Entry>, b: Seq<Entry>, name: Seq<u8>)
    ensures
        name_count(a + b, name) == name_count(a, name) + name_count(b, name),
    decreases b.len(),
{
    if b.len() == 0 {
        assert(a + b =~= a);
    } else {
        lemma_name_count_add(a, b.drop_last(), name);
        assert((a + b).drop_last() =~= a + b.drop_last());
    }
}

/// A listing in which no entry has the name counts none.
pub proof fn lemma_name_count_none(es: Seq<Entry>, name: Seq<u8>)
    requires
        forall|j: int| 0 <= j < es.len() ==> (#[trigger] es[j]).name != name,
    ensures
        name_count(es, name) == 0,
    decreases es.len(),
{
    if es.len() > 0 {
        assert(es.last() == es[es.len() - 1]);
        assert forall|j: int| 0 <= j < es.drop_last().len() implies (#[trigger] es.drop_last()[j]).name
            != name by {
            assert(es[j].name != name);
        }
        lemma_name_count_none(es.drop_last(), name);
    }
}

/// Sorting neither adds nor loses a name.
pub proof fn lemma_name_count_sorted(es: Seq<Entry>, name: Seq<u8>)
    ensures
        name_count(sort_entries(es), name) == name_count(es, name),
    decreases es.len(),
{
    if es.len() > 0 {
        lemma_name_count_sorted(es.drop_last(), name);
        lemma_name_count_inserted(sort_entries(es.drop_last()), es.last(), name);
    }
}

/// Inserting an entry into a sorted listing adds its name once.
pub proof fn lemma_name_count_inserted(es: Seq<Entry>, e: Entry, name: Seq<u8>)
    ensures
        name_count(insert_sorted(es, e), name) == name_count(es, name) + if e.name == name {
            1nat
        } else {
            0nat
        },
    decreases es.len(),
{
    if es.len() == 0 {
        assert(seq![e].drop_last() =~= es);
        assert(seq![e].last() == e);
    } else if entry_before(e, es.last()) {
        lemma_name_count_inserted(es.drop_last(), e, name);
        let inner = insert_sorted(es.drop_last(), e);
        assert(inner.push(es.last()).drop_last() =~= inner);
    } else {
        assert(es.push(e).drop_last() =~= es);
    }
}

/// What is made is found: after `create_nod` of `name` in `parent`, a
/// `lookup` of `name` gives the attributes of the new file, and `readdir`
/// lists the name exactly once, with the new inode.
pub proof fn lemma_create_then_find(
    s: FsView,
    parent: u64,
    name: Seq<u8>,
    template: FileAttr,
    read: bool,
    write: bool,
)
    requires
        tree(s),
        s.create_nod(parent, name, template, read, write).1 is Ok,
    ensures
        ({
            let t = s.create_nod(parent, name, template, read, write).0;
            let a = s.create_nod(parent, name, template, read, write).1.unwrap().1;
            &&& t.lookup(parent, name).1 == Ok::<FileAttr, FsError>(a)
            &&& t.readdir(parent, 0) is Ok
            &&& name_count(t.readdir(parent, 0).unwrap(), name) == 1
            &&& t.readdir(parent, 0).unwrap().contains(
                Entry { name, ino: a.ino, kind: FileType::RegularFile },
            )
        }),
{
    let t = s.create_nod(parent, name, template, read, write).0;
    let a = s.file_attr(template);
    let (pa, es) = s.can_add(parent, name).unwrap();
    let new = Entry { name, ino: a.ino, kind: FileType::RegularFile };
    lemma_unnamed(es, name);
    assert(s.store.attrs[parent] is Some);
    assert(pa.ino == parent);
    let slots = s.store.slots(parent);
    assert(t.store.slots(parent) == slots.push(Some(new)));
    assert(intact(t.store.slots(parent)));
    let after = t.store.entries(parent).unwrap();
    assert(after =~= es.push(new));
    assert(first_named(after, name, es.len() as int)) by {
        assert forall|j: int| 0 <= j < es.len() implies (#[trigger] after[j]).name != name by {
            assert(es[j].name != name);
        }
    }
    lemma_position(after, name, es.len() as int);
    assert(t.store.attr(a.ino) == Ok::<FileAttr, FsError>(a));
    assert(!is_dot(name) && !is_dot_dot(name));
    // The listing.
    let head = seq![
        Entry { name: dot(), ino: parent, kind: FileType::Directory },
        Entry { name: dot_dot(), ino: t.parent_of(parent), kind: FileType::Directory },
    ];
    let full = t.listing_of(parent, after);
    assert(t.readdir(parent, 0).unwrap() =~= full);
    lemma_name_count_none(es, name);
    assert(after.drop_last() =~= es);
    assert(name_count(after, name) == 1);
    lemma_name_count_sorted(after, name);
    lemma_name_count_none(head, name);
    lemma_name_count_add(head, sort_entries(after), name);
    // The new entry is among what is listed.
    lemma_sort_entries(after);
    assert(after.contains(new)) by {
        assert(after[es.len() as int] == new);
    }
    after.to_multiset_ensures();
    sort_entries(after).to_multiset_ensures();
    assert(after.to_multiset().count(new) > 0);
    assert(sort_entries(after).to_multiset().count(new) > 0);
    assert(sort_entries(after).contains(new));
    let k = choose|k: int| 0 <= k < sort_entries(after).len() && sort_entries(after)[k] == new;
    assert(full[2 + k] == new);
}

/// Delete on last close: after `unlink` of a file on which a handle is
/// open, a `lookup` of the name finds nothing, a `read` through the handle
/// gives what it gave before, and once the handle, if it is the only one on
/// the file, is released, the record and the content of the file are gone.
pub proof fn lemma_delete_on_last_close(
    s: FsView,
    parent: u64,
    name: Seq<u8>,
    ino: u64,
    handle: u64,
    offset: u64,
    len: int,
)
    requires
        tree(s),
        valid_name(name),
        s.unlink(parent, name).1 is Ok,
        s.lookup(parent, name).1 matches Ok(a) && a.ino == ino,
        handle_index(s.handles, handle) matches Some(k) && s.handles[k].ino == ino,
    ensures
        ({
            let t = s.unlink(parent, name).0;
            &&& t.lookup(parent, name).1 == Err::<FileAttr, FsError>(FsError::NotFound)
            &&& t.read(ino, offset, len, handle) == s.read(ino, offset, len, handle)
            &&& t.store.attrs.contains_key(ino)
            &&& (forall|j: int|
                0 <= j < s.handles.len() && (#[trigger] s.handles[j]).ino == ino
                    ==> handle_index(s.handles, handle) == Some(j)) && t.release(handle).1 is Ok
                ==> {
                &&& !t.release(handle).0.store.attrs.contains_key(ino)
                &&& !t.release(handle).0.store.nodes.contains_key(ino)
            }
        }),
{
    let t = s.unlink(parent, name).0;
    let (pa, es) = s.open_dir(parent).unwrap();
    let i0 = position(es, name).unwrap();
    assert(first_named(es, name, i0));
    let k = handle_index(s.handles, handle).unwrap();
    assert(handle_place(s.handles, handle, k));
    let target = s.store.attr(es[i0].ino).unwrap();
    assert(held(s, parent, i0));
    assert(s.store.attrs[parent] is Some);
    assert(s.store.attrs[es[i0].ino] is Some);
    assert(pa.ino == parent && target.ino == es[i0].ino);
    assert(es[i0].ino == ino);
    assert(any_open(s.handles, ino)) by {
        assert(s.handles[k].ino == ino);
    }
    assert(ino != parent);
    // The name is gone.
    let slots = s.store.slots(parent);
    let rest = t.store.entries(parent).unwrap();
    assert(t.store.slots(parent) == slots.remove(i0));
    assert(intact(slots.remove(i0)));
    assert forall|j: int| 0 <= j < rest.len() implies (#[trigger] rest[j]).name != name by {
        let from = if j < i0 {
            j
        } else {
            j + 1
        };
        assert(held(s, parent, from));
        assert(entry_at(s, parent, from) == rest[j]);
        assert(entry_at(s, parent, i0).name == name);
    }
    lemma_no_position(rest, name);
    assert(!is_dot(name) && !is_dot_dot(name));
    // The last handle takes the file with it.
    if (forall|j: int|
        0 <= j < s.handles.len() && (#[trigger] s.handles[j]).ino == ino ==> handle_index(
            s.handles,
            handle,
        ) == Some(j)) && t.release(handle).1 is Ok {
        let fl = t.flush(handle).0;
        let left = fl.handles.remove(k);
        assert(fl.store.attrs[ino] is Some);
        assert(fl.store.attr(ino).unwrap().nlink == 0);
        assert(!any_open(left, ino)) by {
            if any_open(left, ino) {
                let j = choose|j: int| 0 <= j < left.len() && (#[trigger] left[j]).ino == ino;
                let from = if j < k {
                    j
                } else {
                    j + 1
                };
                assert(fl.handles[from].ino == s.handles[from].ino);
                assert(s.handles[from].ino == ino);
            }
        }
    }
}

/// Whether an entry `name` of `parent` leads to the inode.
pub open spec fn names_inode(s: FsView, parent: u64, name: Seq<u8>, ino: u64) -> bool {
    s.open_dir(parent) is Ok && position(s.open_dir(parent).unwrap().1, name) is Some
        && s.open_dir(parent).unwrap().1[position(s.open_dir(parent).unwrap().1, name).unwrap()].ino
        == ino
}

/// Whether an operation leaves an inode alone: it is neither the inode nor
/// the directory that the operation names, nor what a name of the operation
/// leads to, nor the inode of a handle of the operation.
pub open spec fn untouched(s: FsView, op: Op, ino: u64) -> bool {
    match op {
        Op::SetClock { now } => true,
        Op::SetSuidSupport { suid_support } => true,
        Op::SetChunkSize { chunk_size } => true,
        Op::Lookup { parent, name } => true,
        Op::Open { ino: other, read, write } => true,
        Op::CreateNod { parent, name, template, read, write } => parent != ino,
        Op::Mkdir { parent, name, mode } => parent != ino,
        Op::Unlink { parent, name } => parent != ino && !names_inode(s, parent, name, ino),
        Op::Rmdir { parent, name } => parent != ino && !names_inode(s, parent, name, ino),
        Op::Rename { sp, sn, dp, dn } => sp != ino && dp != ino && !names_inode(s, sp, sn, ino)
            && !names_inode(s, dp, dn, ino),
        Op::WriteAll { ino: other, offset, data, handle } => other != ino,
        Op::SetAttr { ino: other, set } => other != ino,
        Op::Flush { handle } => !open_on(s.handles, handle, ino),
        Op::Release { handle } => !open_on(s.handles, handle, ino),
    }
}

/// A handle that is opened leaves every open handle at its place.
proof fn lemma_handle_push(handles: Seq<Handle>, h: Handle, id: u64)
    requires
        handle_index(handles, id) is Some,
    ensures
        handle_index(handles.push(h), id) == handle_index(handles, id),
{
    let k = handle_index(handles, id).unwrap();
    assert(handle_place(handles, id, k));
    let after = handles.push(h);
    assert(handle_place(after, id, k)) by {
        assert forall|j: int| 0 <= j < k implies (#[trigger] after[j]).id != id by {
            assert(handles[j].id != id);
        }
    }
    let c = choose|c: int| handle_place(after, id, c);
    if c < k {
        assert(after[c].id != id);
    }
    if k < c {
        assert(after[k].id != id);
    }
}

/// A handle that is closed leaves every handle of another number open, one
/// place down where it stood behind.
proof fn lemma_handle_remove(handles: Seq<Handle>, k: int, id: u64)
    requires
        handle_index(handles, id) is Some,
        0 <= k < handles.len(),
        handle_index(handles, id) != Some(k),
        handles[k].id != id || handle_index(handles, id).unwrap() < k,
    ensures
        handle_index(handles.remove(k), id) is Some,
        handles.remove(k)[handle_index(handles.remove(k), id).unwrap()]
            == handles[handle_index(handles, id).unwrap()],
{
    let r = handle_index(handles, id).unwrap();
    assert(handle_place(handles, id, r));
    let after = handles.remove(k);
    let to = if r < k {
        r
    } else {
        r - 1
    };
    assert(handle_place(after, id, to)) by {
        assert forall|j: int| 0 <= j < to implies (#[trigger] after[j]).id != id by {
            let from = if j < k {
                j
            } else {
                j + 1
            };
            assert(handles[from].id != id);
        }
    }
    let c = choose|c: int| handle_place(after, id, c);
    if c < to {
        assert(after[c].id != id);
    }
    if to < c {
        assert(after[to].id != id);
    }
}

/// Whether the handle with number `id` is open on the inode.
pub open spec fn open_on(handles: Seq<Handle>, id: u64, ino: u64) -> bool {
    handle_index(handles, id) is Some && handles[handle_index(handles, id).unwrap()].ino == ino
}

/// Whether the handle with number `id` is after what it was before.
pub open spec fn kept_handle(before: Seq<Handle>, after: Seq<Handle>, id: u64) -> bool {
    handle_index(after, id) is Some && after[handle_index(after, id).unwrap()]
        == before[handle_index(before, id).unwrap()]
}

/// Whether `t` holds for an inode what `s` holds: its record, its content,
/// and every handle that is open on it.
pub open spec fn same_at(s: FsView, t: FsView, ino: u64) -> bool {
    &&& t.store.attrs.contains_key(ino) == s.store.attrs.contains_key(ino)
    &&& t.store.attrs[ino] == s.store.attrs[ino]
    &&& t.store.nodes.contains_key(ino) == s.store.nodes.contains_key(ino)
    &&& t.store.nodes[ino] == s.store.nodes[ino]
    &&& forall|id: u64| #[trigger]
        open_on(s.handles, id, ino) ==> kept_handle(s.handles, t.handles, id)
}

/// A handle that is opened leaves every open handle what it was.
proof fn lemma_kept_push(handles: Seq<Handle>, h: Handle, id: u64)
    requires
        handle_index(handles, id) is Some,
    ensures
        kept_handle(handles, handles.push(h), id),
{
    lemma_handle_push(handles, h, id);
    assert(handle_place(handles, id, handle_index(handles, id).unwrap()));
}

/// A change of what one handle holds leaves every other handle what it was.
proof fn lemma_kept_update(handles: Seq<Handle>, k: int, h: Handle, id: u64)
    requires
        0 <= k < handles.len(),
        h.id == handles[k].id,
        handle_index(handles, id) is Some,
        handle_index(handles, id) != Some(k),
    ensures
        kept_handle(handles, handles.update(k, h), id),
{
    lemma_handle_update(handles, k, h, id);
    assert(handle_place(handles, id, handle_index(handles, id).unwrap()));
}

/// What holds for an inode step by step holds over the steps.
pub proof fn lemma_same_at(s: FsView, t: FsView, u: FsView, ino: u64)
    requires
        same_at(s, t, ino),
        same_at(t, u, ino),
    ensures
        same_at(s, u, ino),
{
    assert forall|id: u64| #[trigger] open_on(s.handles, id, ino) implies kept_handle(
        s.handles,
        u.handles,
        id,
    ) by {
        assert(kept_handle(s.handles, t.handles, id));
        assert(open_on(t.handles, id, ino));
    }
}

/// An operation that changes neither store nor handles leaves every inode.
proof fn lemma_frame_same(s: FsView, t: FsView, ino: u64)
    requires
        t.store == s.store,
        t.handles == s.handles,
    ensures
        same_at(s, t, ino),
{
}

/// `create_nod` in another directory leaves the inode.
proof fn lemma_frame_create_nod(
    s: FsView,
    parent: u64,
    name: Seq<u8>,
    template: FileAttr,
    read: bool,
    write: bool,
    ino: u64,
)
    requires
        tree(s),
        parent != ino,
        s.store.attrs.contains_key(ino),
    ensures
        same_at(s, s.create_nod(parent, name, template, read, write).0, ino),
{
    let t = s.create_nod(parent, name, template, read, write).0;
    if s.create_nod(parent, name, template, read, write).1 is Ok {
        assert(s.store.attrs[parent] is Some);
        assert forall|id: u64| #[trigger] open_on(s.handles, id, ino) implies kept_handle(
            s.handles,
            t.handles,
            id,
        ) by {
            if read || write {
                lemma_kept_push(s.handles, t.handles.last(), id);
            }
        }
    }
}

/// `mkdir` in another directory leaves the inode.
proof fn lemma_frame_mkdir(s: FsView, parent: u64, name: Seq<u8>, mode: u16, ino: u64)
    requires
        tree(s),
        parent != ino,
        s.store.attrs.contains_key(ino),
    ensures
        same_at(s, s.mkdir(parent, name, mode).0, ino),
{
    if s.mkdir(parent, name, mode).1 is Ok {
        assert(s.store.attrs[parent] is Some);
    }
}

/// `unlink` of another inode in another directory leaves the inode.
proof fn lemma_frame_unlink(s: FsView, parent: u64, name: Seq<u8>, ino: u64)
    requires
        tree(s),
        parent != ino,
        !names_inode(s, parent, name, ino),
        s.store.attrs.contains_key(ino),
    ensures
        same_at(s, s.unlink(parent, name).0, ino),
{
    if s.unlink(parent, name).1 is Ok {
        let es = s.open_dir(parent).unwrap().1;
        let i = position(es, name).unwrap();
        assert(s.store.attrs[parent] is Some);
        assert(s.store.attrs[es[i].ino] is Some);
    }
}

/// `rmdir` of another inode in another directory leaves the inode.
proof fn lemma_frame_rmdir(s: FsView, parent: u64, name: Seq<u8>, ino: u64)
    requires
        tree(s),
        parent != ino,
        !names_inode(s, parent, name, ino),
        s.store.attrs.contains_key(ino),
    ensures
        same_at(s, s.rmdir(parent, name).0, ino),
{
    if s.rmdir(parent, name).1 is Ok {
        assert(s.store.attrs[parent] is Some);
    }
}

/// `rename` between other directories of other inodes leaves the inode.
proof fn lemma_frame_rename(s: FsView, sp: u64, sn: Seq<u8>, dp: u64, dn: Seq<u8>, ino: u64)
    requires
        tree(s),
        sp != ino,
        dp != ino,
        !names_inode(s, sp, sn, ino),
        !names_inode(s, dp, dn, ino),
        s.store.attrs.contains_key(ino),
    ensures
        same_at(s, s.rename(sp, sn, dp, dn).0, ino),
{
    let t = s.rename(sp, sn, dp, dn).0;
    if s.rename(sp, sn, dp, dn).1 is Ok && t != s {
        let ses = s.open_dir(sp).unwrap().1;
        let des = s.open_dir(dp).unwrap().1;
        let i = position(ses, sn).unwrap();
        assert(s.store.attrs[sp] is Some);
        assert(s.store.attrs[dp] is Some);
        assert(s.store.attrs[ses[i].ino] is Some);
        match s.rename_target(ses[i], des, dn).unwrap() {
            Some((j, da)) => {
                assert(s.store.attrs[des[j].ino] is Some);
            },
            None => {},
        }
    }
}

/// `open` leaves every inode, and every handle that was open.
proof fn lemma_frame_open(s: FsView, other: u64, read: bool, write: bool, ino: u64)
    ensures
        same_at(s, s.open(other, read, write).0, ino),
{
    let t = s.open(other, read, write).0;
    if s.open(other, read, write).1 is Ok {
        assert forall|id: u64| #[trigger] open_on(s.handles, id, ino) implies kept_handle(
            s.handles,
            t.handles,
            id,
        ) by {
            lemma_kept_push(s.handles, t.handles.last(), id);
        }
    }
}

/// `write_all` to another inode leaves the inode.
proof fn lemma_frame_write_all(
    s: FsView,
    other: u64,
    offset: u64,
    data: Seq<u8>,
    handle: u64,
    ino: u64,
)
    requires
        s.store.keyed(),
        other != ino,
    ensures
        same_at(s, s.write_all(other, offset, data, handle).0, ino),
{
    let t = s.write_all(other, offset, data, handle).0;
    if s.write_all(other, offset, data, handle).1 is Ok {
        let k = handle_index(s.handles, handle).unwrap();
        assert(s.store.attrs[other] is Some);
        assert forall|id: u64| #[trigger] open_on(s.handles, id, ino) implies kept_handle(
            s.handles,
            t.handles,
            id,
        ) by {
            lemma_kept_update(s.handles, k, Handle { dirty: true, ..s.handles[k] }, id);
        }
    }
}

/// `flush` of a handle on another inode leaves the inode.
proof fn lemma_frame_flush(s: FsView, handle: u64, ino: u64)
    requires
        s.store.keyed(),
        !open_on(s.handles, handle, ino),
    ensures
        same_at(s, s.flush(handle).0, ino),
{
    let t = s.flush(handle).0;
    if s.flush(handle).1 is Ok && handle_index(s.handles, handle) is Some {
        let k = handle_index(s.handles, handle).unwrap();
        if s.handles[k].dirty {
            assert(s.store.attrs[s.handles[k].ino] is Some);
            assert forall|id: u64| #[trigger] open_on(s.handles, id, ino) implies kept_handle(
                s.handles,
                t.handles,
                id,
            ) by {
                lemma_kept_update(s.handles, k, Handle { dirty: false, ..s.handles[k] }, id);
            }
        }
    }
}

/// `release` of a handle on another inode leaves the inode.
proof fn lemma_frame_release(s: FsView, handle: u64, ino: u64)
    requires
        s.store.keyed(),
        !open_on(s.handles, handle, ino),
    ensures
        same_at(s, s.release(handle).0, ino),
{
    let t = s.release(handle).0;
    if s.release(handle).1 is Ok {
        let k = handle_index(s.handles, handle).unwrap();
        assert(handle_place(s.handles, handle, k));
        let fl = s.flush(handle).0;
        lemma_frame_flush(s, handle, ino);
        let closed = FsView { handles: fl.handles.remove(k), ..fl };
        assert(same_at(fl, closed, ino)) by {
            assert forall|id: u64| #[trigger] open_on(fl.handles, id, ino) implies kept_handle(
                fl.handles,
                closed.handles,
                id,
            ) by {
                let r = handle_index(fl.handles, id).unwrap();
                assert(handle_place(fl.handles, id, r));
                assert(fl.handles[k].ino == s.handles[k].ino);
                lemma_handle_remove(fl.handles, k, id);
            }
        }
        let other = s.handles[k].ino;
        assert(same_at(closed, t, ino)) by {
            assert forall|id: u64| #[trigger] open_on(closed.handles, id, ino) implies kept_handle(
                closed.handles,
                t.handles,
                id,
            ) by {}
            if fl.store.attrs.contains_key(other) && fl.store.attrs[other] is Some {
                assert(fl.store.attrs[other].unwrap().ino == other) by {
                    if s.handles[k].dirty {
                    } else {
                        assert(s.store.attrs[other] is Some);
                    }
                }
            }
        }
        lemma_same_at(s, fl, closed, ino);
        lemma_same_at(s, closed, t, ino);
    }
}

/// `setattr` of another inode leaves the inode.
proof fn lemma_frame_setattr(s: FsView, other: u64, set: SetFileAttr, ino: u64)
    requires
        s.store.keyed(),
        other != ino,
    ensures
        same_at(s, s.setattr(other, set).0, ino),
{
    if s.setattr(other, set).1 is Ok {
        assert(s.store.attrs[other] is Some);
    }
}

/// An operation that leaves an inode alone leaves its record, its content
/// and the handles that are open on it.
pub proof fn lemma_frame_step(s: FsView, op: Op, ino: u64)
    requires
        tree(s),
        untouched(s, op, ino),
        s.store.attrs.contains_key(ino),
    ensures
        same_at(s, apply(s, op), ino),
{
    match op {
        Op::SetClock { now } => {
            lemma_frame_same(s, apply(s, op), ino);
        },
        Op::SetSuidSupport { suid_support } => {
            lemma_frame_same(s, apply(s, op), ino);
        },
        Op::SetChunkSize { chunk_size } => {
            lemma_frame_same(s, apply(s, op), ino);
        },
        Op::Lookup { parent, name } => {
            lemma_frame_same(s, apply(s, op), ino);
        },
        Op::CreateNod { parent, name, template, read, write } => {
            lemma_frame_create_nod(s, parent, name, template, read, write, ino);
        },
        Op::Mkdir { parent, name, mode } => {
            lemma_frame_mkdir(s, parent, name, mode, ino);
        },
        Op::Unlink { parent, name } => {
            lemma_frame_unlink(s, parent, name, ino);
        },
        Op::Rmdir { parent, name } => {
            lemma_frame_rmdir(s, parent, name, ino);
        },
        Op::Rename { sp, sn, dp, dn } => {
            lemma_frame_rename(s, sp, sn, dp, dn, ino);
        },
        Op::Open { ino: other, read, write } => {
            lemma_frame_open(s, other, read, write, ino);
        },
        Op::WriteAll { ino: other, offset, data, handle } => {
            lemma_frame_write_all(s, other, offset, data, handle, ino);
        },
        Op::Flush { handle } => {
            lemma_frame_flush(s, handle, ino);
        },
        Op::Release { handle } => {
            lemma_frame_release(s, handle, ino);
        },
        Op::SetAttr { ino: other, set } => {
            lemma_frame_setattr(s, other, set, ino);
        },
    }
}

/// What is read from a file does not depend on what is done to other
/// inodes: an operation that leaves the file's inode alone leaves every
/// `read` of the file as it was.
pub proof fn lemma_read_frame(s: FsView, op: Op, ino: u64, offset: u64, len: int, reader: u64)
    requires
        tree(s),
        untouched(s, op, ino),
        s.store.attrs.contains_key(ino),
        open_on(s.handles, reader, ino),
    ensures
        apply(s, op).read(ino, offset, len, reader) == s.read(ino, offset, len, reader),
{
    lemma_frame_step(s, op, ino);
    assert(kept_handle(s.handles, apply(s, op).handles, reader));
}

/// Whether every operation of a run leaves the inode alone.
pub open spec fn untouched_run(s: FsView, ops: Seq<Op>, ino: u64) -> bool
    decreases ops.len(),
{
    ops.len() == 0 || (untouched_run(s, ops.drop_last(), ino) && untouched(
        run(s, ops.drop_last()),
        ops.last(),
        ino,
    ))
}

/// A run of operations that leave an inode alone leaves its record, its
/// content and the handles that are open on it.
pub proof fn lemma_frame_run(s: FsView, ops: Seq<Op>, ino: u64)
    requires
        tree(s),
        untouched_run(s, ops, ino),
        s.store.attrs.contains_key(ino),
    ensures
        same_at(s, run(s, ops), ino),
        tree(run(s, ops)),
    decreases ops.len(),
{
    lemma_tree_run(s, ops);
    if ops.len() > 0 {
        let before = run(s, ops.drop_last());
        lemma_frame_run(s, ops.drop_last(), ino);
        lemma_frame_step(before, ops.last(), ino);
        lemma_same_at(s, before, run(s, ops), ino);
    } else {
        lemma_frame_same(s, s, ino);
    }
}

/// What a handle has written is read once the handle is flushed: where the
/// file holds `data` at `offset` and a handle on it has written, a `flush`
/// of that handle lets a `read` at `offset` give exactly `data`.
proof fn lemma_flush_read(s: FsView, ino: u64, offset: u64, data: Seq<u8>, writer: u64, reader: u64)
    requires
        s.store.keyed(),
        s.store.is_file(ino),
        s.store.file(ino).intact,
        s.store.file(ino).bytes.len() <= u64::MAX,
        offset + data.len() <= s.store.file(ino).bytes.len(),
        forall|i: int|
            0 <= i < data.len() ==> (#[trigger] s.store.file(ino).bytes[offset + i]) == Some(
                data[i],
            ),
        open_on(s.handles, writer, ino),
        s.handles[handle_index(s.handles, writer).unwrap()].dirty,
        open_on(s.handles, reader, ino),
        s.handles[handle_index(s.handles, reader).unwrap()].read,
        s.flush(writer).1 is Ok,
    ensures
        s.flush(writer).0.read(ino, offset, data.len() as int, reader) == Ok::<Seq<u8>, FsError>(
            data,
        ),
{
    let t = s.flush(writer).0;
    let k = handle_index(s.handles, writer).unwrap();
    let r = handle_index(s.handles, reader).unwrap();
    let bytes = s.store.file(ino).bytes;
    lemma_handle_update(s.handles, k, Handle { dirty: false, ..s.handles[k] }, reader);
    assert(handle_index(t.handles, reader) == Some(r));
    assert(t.handles[r].ino == ino && t.handles[r].read);
    assert(s.store.attrs[ino] is Some);
    let size = bytes.len() as u64;
    assert(t.store.attr(ino) is Ok && t.store.attr(ino).unwrap().size == size);
    assert(t.store.file(ino) == s.store.file(ino));
    let got = read_result(bytes, offset as int, data.len() as int, size as int);
    if data.len() > 0 {
        assert(readable(bytes, offset as int, offset + data.len())) by {
            assert forall|p: int| offset <= p < offset + data.len() implies (#[trigger] bytes[p])
                is Some by {
                assert(bytes[offset + (p - offset)] == Some(data[p - offset]));
            }
        }
        assert(got is Ok);
        assert(got.unwrap() =~= data) by {
            assert forall|i: int| 0 <= i < data.len() implies got.unwrap()[i] == data[i] by {
                assert(bytes[offset + i] == Some(data[i]));
            }
        }
    } else {
        assert(got is Ok);
        assert(got.unwrap() =~= data);
    }
}

/// What was written is read after the flush, whatever was done to other
/// inodes between the write and the flush.
pub proof fn lemma_write_others_flush_read(
    s: FsView,
    ino: u64,
    offset: u64,
    data: Seq<u8>,
    writer: u64,
    reader: u64,
    ops: Seq<Op>,
)
    requires
        tree(s),
        s.store.bounded(),
        s.write_all(ino, offset, data, writer).1 is Ok,
        untouched_run(s.write_all(ino, offset, data, writer).0, ops, ino),
        run(s.write_all(ino, offset, data, writer).0, ops).flush(writer).1 is Ok,
        open_on(s.handles, reader, ino),
        s.handles[handle_index(s.handles, reader).unwrap()].read,
    ensures
        run(s.write_all(ino, offset, data, writer).0, ops).flush(writer).0.read(
            ino,
            offset,
            data.len() as int,
            reader,
        ) == Ok::<Seq<u8>, FsError>(data),
{
    let s1 = s.write_all(ino, offset, data, writer).0;
    let s2 = run(s1, ops);
    let k = handle_index(s.handles, writer).unwrap();
    let old_file = s.store.file(ino);
    lemma_tree_step(s, Op::WriteAll { ino, offset, data, handle: writer });
    assert(s.store.attrs[ino] is Some);
    assert(s.store.nodes[ino] is File);
    lemma_handle_update(s.handles, k, Handle { dirty: true, ..s.handles[k] }, writer);
    lemma_handle_update(s.handles, k, Handle { dirty: true, ..s.handles[k] }, reader);
    assert(open_on(s1.handles, writer, ino));
    assert(s1.handles[k].dirty);
    assert(open_on(s1.handles, reader, ino));
    lemma_frame_run(s1, ops, ino);
    assert(kept_handle(s1.handles, s2.handles, writer));
    assert(kept_handle(s1.handles, s2.handles, reader));
    let bytes = s1.store.file(ino).bytes;
    assert(bytes == write_result(old_file.bytes, old_file.chunk_size as int, offset as int, data).unwrap());
    if data.len() > 0 {
        assert(bytes == written(old_file.bytes, offset as int, data));
    }
    assert(bytes.len() <= old_file.chunk_size * MAX_CHUNKS);
    assert(old_file.chunk_size * MAX_CHUNKS <= u64::MAX) by (nonlinear_arith)
        requires
            old_file.chunk_size <= 0x100_0000,
            MAX_CHUNKS == 0x1000_0000,
    ;
    if data.len() == 0 {
        assert(offset + data.len() <= bytes.len() || true);
    }
    if offset + data.len() <= bytes.len() {
        lemma_flush_read(s2, ino, offset, data, writer, reader);
    } else {
        // Only an empty write leaves the file shorter than where it was made.
        let t = s2.flush(writer).0;
        let r2 = handle_index(s2.handles, reader).unwrap();
        let k2 = handle_index(s2.handles, writer).unwrap();
        lemma_handle_update(s2.handles, k2, Handle { dirty: false, ..s2.handles[k2] }, reader);
        assert(s2.store.attrs[ino] is Some);
        let got = read_result(
            t.store.file(ino).bytes,
            offset as int,
            0,
            t.store.attr(ino).unwrap().size as int,
        );
        assert(got is Ok);
        assert(got.unwrap() =~= data);
    }
}

/// Every entry that a directory lists is still listed after `create_nod`.
pub proof fn lemma_create_keeps_entries(
    s: FsView,
    parent: u64,
    name: Seq<u8>,
    template: FileAttr,
    read: bool,
    write: bool,
    dir: u64,
    entry: Entry,
)
    requires
        tree(s),
        s.create_nod(parent, name, template, read, write).1 is Ok,
        s.readdir(dir, 0) is Ok,
        s.readdir(dir, 0).unwrap().contains(entry),
    ensures
        s.create_nod(parent, name, template, read, write).0.readdir(dir, 0) is Ok,
        s.create_nod(parent, name, template, read, write).0.readdir(dir, 0).unwrap().contains(
            entry,
        ),
{
    let t = s.create_nod(parent, name, template, read, write).0;
    let a = s.file_attr(template);
    let (pa, es) = s.can_add(parent, name).unwrap();
    assert(s.store.attrs[parent] is Some);
    assert(s.store.attrs[dir] is Some);
    assert(pa.ino == parent);
    let before = s.open_dir(dir).unwrap().1;
    let new = Entry { name, ino: a.ino, kind: FileType::RegularFile };
    assert(t.store.slots(dir) == if dir == parent {
        s.store.slots(dir).push(Some(new))
    } else {
        s.store.slots(dir)
    });
    assert(intact(t.store.slots(dir)));
    let after = t.open_dir(dir).unwrap().1;
    assert(after =~= if dir == parent {
        before.push(new)
    } else {
        before
    });
    let was = s.listing_of(dir, before);
    let now = t.listing_of(dir, after);
    assert(s.readdir(dir, 0).unwrap() =~= was);
    assert(t.readdir(dir, 0).unwrap() =~= now);
    let i = choose|i: int| 0 <= i < was.len() && was[i] == entry;
    if i < 2 {
        assert(now[i] == was[i]);
    } else {
        let sorted = sort_entries(before);
        assert(sorted[i - 2] == entry);
        lemma_sort_entries(before);
        lemma_sort_entries(after);
        before.to_multiset_ensures();
        after.to_multiset_ensures();
        sorted.to_multiset_ensures();
        sort_entries(after).to_multiset_ensures();
        assert(sorted.contains(entry));
        assert(sorted.to_multiset().count(entry) > 0);
        assert(before.to_multiset().count(entry) > 0);
        assert(after.to_multiset().count(entry) > 0) by {
            if dir == parent {
                assert(before.push(new).to_multiset() =~= before.to_multiset().insert(new));
            }
        }
        assert(sort_entries(after).to_multiset().count(entry) > 0);
        assert(sort_entries(after).contains(entry));
        let j = choose|j: int| 0 <= j < sort_entries(after).len() && sort_entries(after)[j] == entry;
        assert(now[2 + j] == entry);
    }
}

/// What does not authenticate is not delivered: a `read` that reaches a
/// byte that is missing, or that lies in a chunk that does not
/// authenticate, fails with `Corrupted`.
pub proof fn lemma_corrupted_read(s: FsView, ino: u64, offset: u64, len: int, handle: u64, p: int)
    requires
        s.handle_for(ino, handle) is Ok,
        s.handles[s.handle_for(ino, handle).unwrap()].read,
        s.store.attr(ino) is Ok,
        s.store.is_file(ino),
        offset <= p < read_end(offset as int, len, s.store.attr(ino).unwrap().size as int),
        p >= s.store.file(ino).bytes.len() || s.store.file(ino).bytes[p] is None,
    ensures
        s.read(ino, offset, len, handle) == Err::<Seq<u8>, FsError>(FsError::Corrupted),
{
}

/// A damaged header is met: every `read` and every `write_all` of a file
/// whose header does not authenticate, and every `open` of what has not the
/// form of a content file, fails with `Corrupted`, and leaves the state as
/// it was.
pub proof fn lemma_corrupted_header(
    s: FsView,
    ino: u64,
    offset: u64,
    len: int,
    data: Seq<u8>,
    handle: u64,
)
    requires
        s.store.attr(ino) is Ok,
        s.store.attr(ino).unwrap().kind == FileType::RegularFile,
        s.handle_for(ino, handle) is Ok ==> s.handles[s.handle_for(ino, handle).unwrap()].read
            && s.handles[s.handle_for(ino, handle).unwrap()].write,
        !s.store.is_file(ino) || !s.store.file(ino).intact,
    ensures
        s.handle_for(ino, handle) is Ok ==> s.read(ino, offset, len, handle) == Err::<
            Seq<u8>,
            FsError,
        >(FsError::Corrupted),
        s.handle_for(ino, handle) is Ok ==> s.write_all(ino, offset, data, handle) == (
            s,
            Err::<(), FsError>(FsError::Corrupted),
        ),
        !s.store.is_file(ino) ==> s.open(ino, true, true) == (
            s,
            Err::<u64, FsError>(FsError::Corrupted),
        ),
{
}

/// What the engine built is read: in a sound state a `read` of a file
/// that no handle has written to without a flush gives bytes, and no
/// error, through every handle that may read it.
pub proof fn lemma_sound_read(s: FsView, ino: u64, offset: u64, len: int, handle: u64)
    requires
        sound(s),
        0 <= len,
        s.handle_for(ino, handle) is Ok,
        s.handles[s.handle_for(ino, handle).unwrap()].read,
        s.store.attr(ino) is Ok,
        s.store.attr(ino).unwrap().kind == FileType::RegularFile,
        s.store.is_file(ino),
        !dirty_open(s.handles, ino),
    ensures
        s.read(ino, offset, len, handle) is Ok,
{
    let file = s.store.file(ino);
    let size = s.store.attr(ino).unwrap().size;
    assert(s.store.attrs[ino] is Some);
    assert(s.store.nodes[ino] is File);
    assert(file.bytes.len() == size);
    let end = read_end(offset as int, len, size as int);
    if offset < end {
        assert(readable(file.bytes, offset as int, end)) by {
            assert forall|p: int| offset <= p < end implies (#[trigger] file.bytes[p]) is Some by {}
        }
    }
}

} // verus!
