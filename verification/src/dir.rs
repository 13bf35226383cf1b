//! The directory store: a directory is a folder of small files, one for each
//! entry. The file's name is the encrypted name of the entry, and what it
//! holds is the sealed pair of the entry's inode and kind.
use vstd::prelude::*;

use crate::attr::{code_kind, kind_code, FileType};
use crate::bytes::{
    bytes_words, copy_range, decode_words, encode_words, equal, lemma_words_bytes, };
use crate::cipher::{open_record, record_plain, seal_record, Cipher, KEY_LEN};
use crate::names::{
    decrypt_name, encrypt_name, plain_name, valid_disk_name, valid_name, MAX_DISK_NAME_LEN,
};

verus! {

/// One file of a directory's folder, as it stands on disk.
pub struct DirFile {
    /// The encrypted name of the entry.
    pub name: Vec<u8>,
    /// The sealed inode and kind of the entry.
    pub payload: Vec<u8>,
}

/// What a file of a folder holds, as byte strings.
pub struct DirFileView {
    pub name: Seq<u8>,
    pub payload: Seq<u8>,
}

impl View for DirFile {
    type V = DirFileView;

    open spec fn view(&self) -> DirFileView {
        DirFileView { name: self.name@, payload: self.payload@ }
    }
}

/// A directory entry: a name, and the inode and kind that it leads to.
pub struct DirEntry {
    pub name: Vec<u8>,
    pub ino: u64,
    pub kind: FileType,
}

/// A directory entry as a value of the model.
pub struct Entry {
    pub name: Seq<u8>,
    pub ino: u64,
    pub kind: FileType,
}

impl View for DirEntry {
    type V = Entry;

    open spec fn view(&self) -> Entry {
        Entry { name: self.name@, ino: self.ino, kind: self.kind }
    }
}

/// The entries of a listing, as values of the model.
pub open spec fn entries_view(entries: Seq<DirEntry>) -> Seq<Entry> {
    Seq::new(entries.len(), |i: int| entries[i]@)
}

/// The files of a folder, as byte strings.
pub open spec fn folder_view(folder: Seq<DirFile>) -> Seq<DirFileView> {
    Seq::new(folder.len(), |i: int| folder[i]@)
}

/// The inode and kind that the plaintext of a payload names.
pub open spec fn payload_target(plain: Seq<u8>) -> Option<(u64, FileType)> {
    match bytes_words(plain) {
        Some(ws) => if ws.len() == 2 && code_kind(ws[1]) is Some {
            Some((ws[0], code_kind(ws[1]).unwrap()))
        } else {
            None
        },
        None => None,
    }
}

/// The entry that a file of a folder stands for: its name has to decrypt,
/// and its payload has to authenticate, bound to the name on disk, and to
/// name an inode and a kind. `None` is the corrupted file.
pub open spec fn entry_of(cipher: Cipher, key: Seq<u8>, file: DirFileView) -> Option<Entry> {
    match plain_name(cipher, key, file.name) {
        Some(name) => match record_plain(cipher, key, file.name, file.payload) {
            Some(plain) => match payload_target(plain) {
                Some((ino, kind)) => Some(Entry { name, ino, kind }),
                None => None,
            },
            None => None,
        },
        None => None,
    }
}

/// What each file of a folder stands for, in the folder's order.
pub open spec fn folder_entries(cipher: Cipher, key: Seq<u8>, folder: Seq<DirFileView>) -> Seq<
    Option<Entry>,
> {
    Seq::new(folder.len(), |i: int| entry_of(cipher, key, folder[i]))
}

/// Whether every file of the folder stands for an entry.
pub open spec fn intact(slots: Seq<Option<Entry>>) -> bool {
    forall|i: int| 0 <= i < slots.len() ==> (#[trigger] slots[i]) is Some
}

/// The entries of an intact folder.
pub open spec fn listing(slots: Seq<Option<Entry>>) -> Seq<Entry> {
    Seq::new(slots.len(), |i: int| slots[i].unwrap())
}

/// Whether `i` is the place of the first entry with the given name.
pub open spec fn first_named(entries: Seq<Entry>, name: Seq<u8>, i: int) -> bool {
    &&& 0 <= i < entries.len()
    &&& entries[i].name == name
    &&& forall|j: int| 0 <= j < i ==> (#[trigger] entries[j]).name != name
}

/// Whether no entry has the given name.
pub open spec fn unnamed(entries: Seq<Entry>, name: Seq<u8>) -> bool {
    forall|j: int| 0 <= j < entries.len() ==> (#[trigger] entries[j]).name != name
}

/// The place of the first entry with the given name, if there is one.
pub open spec fn position(entries: Seq<Entry>, name: Seq<u8>) -> Option<int> {
    if exists|i: int| first_named(entries, name, i) {
        Some(choose|i: int| first_named(entries, name, i))
    } else {
        None
    }
}

/// There is at most one first entry with a name.
pub proof fn lemma_position(entries: Seq<Entry>, name: Seq<u8>, i: int)
    requires
        first_named(entries, name, i),
    ensures
        position(entries, name) == Some(i),
{
    let j = choose|j: int| first_named(entries, name, j);
    assert(first_named(entries, name, j));
    if j < i {
        assert(entries[j].name != name);
    }
    if i < j {
        assert(entries[i].name != name);
    }
}

/// Where no entry has the name, there is no place for it.
pub proof fn lemma_no_position(entries: Seq<Entry>, name: Seq<u8>)
    requires
        unnamed(entries, name),
    ensures
        position(entries, name) is None,
{
    if exists|i: int| first_named(entries, name, i) {
        let i = choose|i: int| first_named(entries, name, i);
        assert(entries[i].name != name);
    }
}

/// Seals the inode and kind of an entry, bound to the entry's name on disk.
pub fn make_payload(cipher: Cipher, key: &[u8], disk: &[u8], ino: u64, kind: FileType) -> (payload:
    Vec<u8>)
    requires
        key@.len() == KEY_LEN,
        disk@.len() <= MAX_DISK_NAME_LEN,
    ensures
        record_plain(cipher, key@, disk@, payload@) matches Some(plain) && payload_target(plain)
            == Some((ino, kind)),
{
    let code: u64 = match kind {
        FileType::RegularFile => 0,
        FileType::Directory => 1,
        FileType::Symlink => 2,
    };
    let ws: Vec<u64> = vec![ino, code];
    let plain = encode_words(ws.as_slice());
    proof {
        lemma_words_bytes(ws@);
        assert(code == kind_code(kind));
        assert(payload_target(plain@) == Some((ino, kind)));
    }
    seal_record(cipher, key, disk, plain.as_slice())
}

/// Makes the file that stands for an entry.
pub fn make_entry(cipher: Cipher, key: &[u8], name: &[u8], ino: u64, kind: FileType) -> (file:
    DirFile)
    requires
        key@.len() == KEY_LEN,
        valid_name(name@),
    ensures
        entry_of(cipher, key@, file@) == Some(Entry { name: name@, ino, kind }),
        valid_disk_name(file.name@),
{
    let disk = encrypt_name(cipher, key, name);
    let payload = make_payload(cipher, key, disk.as_slice(), ino, kind);
    DirFile { name: disk, payload }
}

/// Reads the entry that a file stands for; `None` for a corrupted file.
pub fn read_entry(cipher: Cipher, key: &[u8], file: &DirFile) -> (out: Option<DirEntry>)
    ensures
        out matches Some(e) ==> entry_of(cipher, key@, file@) == Some(e@),
        out is None ==> entry_of(cipher, key@, file@) is None,
{
    let name = match decrypt_name(cipher, key, file.name.as_slice()) {
        Some(name) => name,
        None => { return None; },
    };
    let plain = match open_record(cipher, key, file.name.as_slice(), file.payload.as_slice()) {
        Some(plain) => plain,
        None => { return None; },
    };
    let ws = match decode_words(plain.as_slice()) {
        Some(ws) => ws,
        None => { return None; },
    };
    if ws.len() != 2 {
        return None;
    }
    let kind = if ws[1] == 0 {
        FileType::RegularFile
    } else if ws[1] == 1 {
        FileType::Directory
    } else if ws[1] == 2 {
        FileType::Symlink
    } else {
        return None;
    };
    Some(DirEntry { name, ino: ws[0], kind })
}

/// Reads every entry of a folder; `None` where a file is corrupted.
pub fn load_folder(cipher: Cipher, key: &[u8], folder: &Vec<DirFile>) -> (out: Option<
    Vec<DirEntry>,
>)
    ensures
        out matches Some(entries) ==> {
            &&& intact(folder_entries(cipher, key@, folder_view(folder@)))
            &&& entries_view(entries@) == listing(
                folder_entries(cipher, key@, folder_view(folder@)),
            )
        },
        out is None ==> !intact(folder_entries(cipher, key@, folder_view(folder@))),
{
    let ghost slots = folder_entries(cipher, key@, folder_view(folder@));
    let mut entries: Vec<DirEntry> = Vec::new();
    let mut i: usize = 0;
    while i < folder.len()
        invariant
            i <= folder@.len(),
            slots == folder_entries(cipher, key@, folder_view(folder@)),
            entries@.len() == i,
            forall|j: int| 0 <= j < i ==> slots[j] == Some(#[trigger] entries@[j]@),
        decreases folder@.len() - i,
    {
        match read_entry(cipher, key, &folder[i]) {
            Some(entry) => {
                assert(slots[i as int] == Some(entry@));
                entries.push(entry);
            },
            None => {
                assert(slots[i as int] is None);
                return None;
            },
        }
        i += 1;
    }
    proof {
        assert forall|j: int| 0 <= j < slots.len() implies (#[trigger] slots[j]) is Some by {
            assert(slots[j] == Some(entries@[j]@));
        }
        assert(entries_view(entries@) =~= listing(slots)) by {
            assert forall|j: int| 0 <= j < entries@.len() implies entries_view(entries@)[j]
                == listing(slots)[j] by {
                assert(slots[j] == Some(entries@[j]@));
            }
        }
    }
    Some(entries)
}

/// Finds the first entry with the given name.
pub fn find(entries: &Vec<DirEntry>, name: &[u8]) -> (out: Option<usize>)
    ensures
        out matches Some(i) ==> first_named(entries_view(entries@), name@, i as int),
        out is None ==> unnamed(entries_view(entries@), name@),
        (match out {
            Some(i) => Some(i as int),
            None => None,
        }) == position(entries_view(entries@), name@),
{
    let ghost view = entries_view(entries@);
    let mut i: usize = 0;
    while i < entries.len()
        invariant
            i <= entries@.len(),
            view == entries_view(entries@),
            forall|j: int| 0 <= j < i ==> (#[trigger] view[j]).name != name@,
        decreases entries@.len() - i,
    {
        if equal(entries[i].name.as_slice(), name) {
            proof {
                assert(view[i as int].name == name@);
                lemma_position(view, name@, i as int);
            }
            return Some(i);
        }
        i += 1;
    }
    proof {
        lemma_no_position(view, name@);
    }
    None
}

/// Whether `a` comes before `b` in the order of byte strings, looking from
/// place `i` on, where the two agree before that place.
pub open spec fn name_before_from(a: Seq<u8>, b: Seq<u8>, i: int) -> bool
    decreases a.len() - i,
{
    if i < 0 || i >= b.len() {
        false
    } else if i >= a.len() {
        true
    } else if a[i] != b[i] {
        a[i] < b[i]
    } else {
        name_before_from(a, b, i + 1)
    }
}

/// The lexicographic order of names: at the first place where two names
/// differ the smaller byte decides, and a name comes before every name that
/// continues it.
pub open spec fn name_before(a: Seq<u8>, b: Seq<u8>) -> bool {
    name_before_from(a, b, 0)
}

/// The order of a listing: by name, and by inode where the names are equal.
pub open spec fn entry_before(a: Entry, b: Entry) -> bool {
    name_before(a.name, b.name) || (a.name == b.name && a.ino < b.ino)
}

/// No name comes before itself, and of two names at most one comes before
/// the other.
pub proof fn lemma_name_order(a: Seq<u8>, b: Seq<u8>, i: int)
    requires
        0 <= i,
    ensures
        !name_before_from(a, a, i),
        !(name_before_from(a, b, i) && name_before_from(b, a, i)),
    decreases a.len() - i,
{
    if i < a.len() {
        lemma_name_order(a, a, i + 1);
        if i < b.len() && a[i] == b[i] {
            lemma_name_order(a, b, i + 1);
        }
    }
}

/// Of two entries at most one comes before the other.
pub proof fn lemma_entry_order(a: Entry, b: Entry)
    ensures
        !(entry_before(a, b) && entry_before(b, a)),
{
    lemma_name_order(a.name, b.name, 0);
    lemma_name_order(b.name, a.name, 0);
}

/// A sorted listing with one more entry, put behind every entry that does
/// not come after it.
pub open spec fn insert_sorted(s: Seq<Entry>, e: Entry) -> Seq<Entry>
    decreases s.len(),
{
    if s.len() == 0 {
        seq![e]
    } else if entry_before(e, s.last()) {
        insert_sorted(s.drop_last(), e).push(s.last())
    } else {
        s.push(e)
    }
}

/// The entries in the order of a listing; entries that the order does not
/// tell apart stay in the order in which they were.
pub open spec fn sort_entries(s: Seq<Entry>) -> Seq<Entry>
    decreases s.len(),
{
    if s.len() == 0 {
        Seq::empty()
    } else {
        insert_sorted(sort_entries(s.drop_last()), s.last())
    }
}

/// Whether no entry of `s` comes before the entry in front of it.
pub open spec fn ascending(s: Seq<Entry>) -> bool {
    forall|i: int| 0 <= i < s.len() - 1 ==> !entry_before(#[trigger] s[i + 1], s[i])
}

/// Inserting keeps a listing ascending and adds exactly the one entry.
pub proof fn lemma_insert_sorted(s: Seq<Entry>, e: Entry)
    requires
        ascending(s),
    ensures
        ascending(insert_sorted(s, e)),
        insert_sorted(s, e).len() == s.len() + 1,
        insert_sorted(s, e).to_multiset() == s.to_multiset().insert(e),
        insert_sorted(s, e).last() == if s.len() > 0 && entry_before(e, s.last()) {
            s.last()
        } else {
            e
        },
    decreases s.len(),
{
    broadcast use vstd::seq_lib::to_multiset_build;

    let r = insert_sorted(s, e);
    if s.len() == 0 {
        assert(s =~= Seq::<Entry>::empty());
        assert(seq![e] =~= s.push(e));
        assert(r.to_multiset() =~= s.to_multiset().insert(e));
    } else if entry_before(e, s.last()) {
        let init = s.drop_last();
        assert(ascending(init)) by {
            assert forall|i: int| 0 <= i < init.len() - 1 implies !entry_before(
                #[trigger] init[i + 1],
                init[i],
            ) by {
                assert(!entry_before(s[i + 1], s[i]));
            }
        }
        lemma_insert_sorted(init, e);
        let inner = insert_sorted(init, e);
        assert(s =~= init.push(s.last()));
        assert(r.to_multiset() =~= inner.to_multiset().insert(s.last()));
        assert(init.push(s.last()).to_multiset() =~= init.to_multiset().insert(s.last()));
        assert(r.to_multiset() =~= s.to_multiset().insert(e));
        assert forall|i: int| 0 <= i < r.len() - 1 implies !entry_before(#[trigger] r[i + 1], r[i]) by {
            if i + 1 < inner.len() {
                assert(!entry_before(inner[i + 1], inner[i]));
            } else {
                lemma_entry_order(e, s.last());
                if init.len() > 0 {
                    assert(!entry_before(s[init.len() - 1 + 1], s[init.len() - 1]));
                }
            }
        }
    } else {
        assert(r.to_multiset() =~= s.to_multiset().insert(e));
        assert forall|i: int| 0 <= i < r.len() - 1 implies !entry_before(#[trigger] r[i + 1], r[i]) by {
            if i + 1 < s.len() {
                assert(!entry_before(s[i + 1], s[i]));
            }
        }
    }
}

/// A sorted listing is ascending and holds exactly the entries it was made
/// from, each as often as it was there.
pub proof fn lemma_sort_entries(s: Seq<Entry>)
    ensures
        ascending(sort_entries(s)),
        sort_entries(s).len() == s.len(),
        sort_entries(s).to_multiset() == s.to_multiset(),
    decreases s.len(),
{
    broadcast use vstd::seq_lib::to_multiset_build;

    if s.len() > 0 {
        let init = s.drop_last();
        lemma_sort_entries(init);
        lemma_insert_sorted(sort_entries(init), s.last());
        assert(s =~= init.push(s.last()));
        assert(init.push(s.last()).to_multiset() =~= init.to_multiset().insert(s.last()));
    } else {
        assert(s =~= Seq::<Entry>::empty());
    }
}

/// Where `e` comes before every entry from place `j` on and not before the
/// one in front of that place, inserting puts it at place `j`.
proof fn lemma_insert_at(s: Seq<Entry>, e: Entry, j: int)
    requires
        0 <= j <= s.len(),
        forall|k: int| j <= k < s.len() ==> entry_before(e, #[trigger] s[k]),
        j > 0 ==> !entry_before(e, s[j - 1]),
    ensures
        insert_sorted(s, e) == s.insert(j, e),
    decreases s.len(),
{
    if s.len() == 0 {
        assert(seq![e] =~= s.insert(j, e));
    } else if j == s.len() {
        assert(s.push(e) =~= s.insert(j, e));
    } else {
        assert(entry_before(e, s[s.len() - 1]));
        lemma_insert_at(s.drop_last(), e, j);
        assert(s.drop_last().insert(j, e).push(s.last()) =~= s.insert(j, e));
    }
}

/// Tests whether name `a` comes before name `b`.
pub fn name_precedes(a: &[u8], b: &[u8]) -> (before: bool)
    ensures
        before == name_before(a@, b@),
{
    let mut i: usize = 0;
    loop
        invariant_except_break
            i <= a@.len(),
            i <= b@.len(),
            name_before(a@, b@) == name_before_from(a@, b@, i as int),
        ensures
            name_before(a@, b@) == (i < b@.len() && (i >= a@.len() || a@[i as int] < b@[i as int])),
        decreases a@.len() - i,
    {
        if i >= b.len() || i >= a.len() || a[i] != b[i] {
            break ;
        }
        i += 1;
    }
    i < b.len() && (i >= a.len() || a[i] < b[i])
}

/// Tests whether entry `a` comes before entry `b` in a listing.
pub fn entry_precedes(a: &DirEntry, b: &DirEntry) -> (before: bool)
    ensures
        before == entry_before(a@, b@),
{
    name_precedes(a.name.as_slice(), b.name.as_slice()) || (equal(
        a.name.as_slice(),
        b.name.as_slice(),
    ) && a.ino < b.ino)
}

/// An entry with the same name, inode and kind.
pub fn copy_entry(e: &DirEntry) -> (out: DirEntry)
    ensures
        out@ == e@,
{
    let name = copy_range(e.name.as_slice(), 0, e.name.len());
    assert(name@ =~= e.name@);
    DirEntry { name, ino: e.ino, kind: e.kind }
}

/// Sorts a listing by name, and by inode where names are equal.
pub fn sort(entries: &Vec<DirEntry>) -> (out: Vec<DirEntry>)
    ensures
        entries_view(out@) == sort_entries(entries_view(entries@)),
{
    let ghost view = entries_view(entries@);
    let mut out: Vec<DirEntry> = Vec::new();
    let mut i: usize = 0;
    assert(view.subrange(0, 0) =~= Seq::<Entry>::empty());
    assert(entries_view(out@) =~= Seq::<Entry>::empty());
    while i < entries.len()
        invariant
            i <= entries@.len(),
            view == entries_view(entries@),
            entries_view(out@) == sort_entries(view.subrange(0, i as int)),
        decreases entries@.len() - i,
    {
        let entry = copy_entry(&entries[i]);
        let ghost sorted = entries_view(out@);
        let mut j: usize = out.len();
        while j > 0 && entry_precedes(&entry, &out[j - 1])
            invariant
                j <= out@.len(),
                sorted == entries_view(out@),
                forall|k: int| j <= k < sorted.len() ==> entry_before(entry@, #[trigger] sorted[k]),
            decreases j,
        {
            j -= 1;
        }
        proof {
            lemma_insert_at(sorted, entry@, j as int);
            let next = view.subrange(0, i + 1);
            assert(next.drop_last() =~= view.subrange(0, i as int));
            assert(next.last() == entry@);
        }
        out.insert(j, entry);
        assert(entries_view(out@) =~= sorted.insert(j as int, entry@));
        i += 1;
    }
    assert(view.subrange(0, view.len() as int) =~= view);
    out
}

} // verus!
