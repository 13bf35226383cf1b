//! The stores of attributes, directories and contents: a data directory of
//! sealed records, and what those records mean under the master key.
use std::collections::HashMap;
use vstd::prelude::*;

use crate::attr::{
    apply_set, attr_set, bytes_attr, decode_attr, encode_attr, lemma_attr_roundtrip, FileAttr,
    FileType, SetFileAttr, Timestamp,
};
use crate::cipher::{open_record, record_plain, seal_record, Cipher, KEY_LEN};
use crate::content::{
    decodable, file_bytes, lemma_decodable, ContentFile, FileView, MAX_CHUNKS, MAX_CHUNK_SIZE,
    MIN_CHUNK_SIZE,
};
use crate::dir::{
    entries_view, entry_of, folder_entries, folder_view, intact, listing, load_folder, make_entry,
    make_payload,
    unnamed, DirEntry, DirFile, Entry,
};
use crate::error::FsError;
use crate::names::{valid_name, MAX_DISK_NAME_LEN};
use crate::secret::SecretBytes;

verus! {

broadcast use vstd::std_specs::hash::group_hash_axioms;

/// What lies under `contents/` for one inode: the sealed chunks of a regular
/// file, the folder of a directory, or bytes that are neither.
pub enum Content {
    File(ContentFile),
    Folder(Vec<DirFile>),
    /// What was found in place of a content file and has not the form of
    /// one; it is kept as it was found.
    Damaged(Vec<u8>),
}

/// A data directory: the key file, the sealed attribute records, and the
/// contents, each by inode.
pub struct DataDir {
    key: Option<Vec<u8>>,
    inodes: HashMap<u64, Vec<u8>>,
    contents: HashMap<u64, Content>,
    touched: Vec<u64>,
    /// No inode with a higher number has a record or a content.
    high: u64,
}

/// What stands for an inode's content.
pub enum NodeView {
    File(FileView),
    /// The files of a directory's folder, where `None` stands for a file
    /// that is no entry: its name or what it holds does not authenticate.
    Folder(Seq<Option<Entry>>),
    /// Bytes that have not the form of a content file.
    Damaged,
}

/// What a data directory means under a key.
pub struct StoreView {
    /// The attribute records, by inode; `None` stands for a record that does
    /// not authenticate or is none of this inode.
    pub attrs: Map<u64, Option<FileAttr>>,
    pub nodes: Map<u64, NodeView>,
    /// The inodes whose records have been written or removed since the
    /// changes were last taken.
    pub dirty: Set<u64>,
}

/// The attributes that a stored record holds for inode `ino`.
pub open spec fn attr_of(cipher: Cipher, key: Seq<u8>, ino: u64, record: Seq<u8>) -> Option<
    FileAttr,
> {
    match record_plain(cipher, key, Seq::empty(), record) {
        Some(plain) => match bytes_attr(plain) {
            Some(a) => if a.ino == ino {
                Some(a)
            } else {
                None
            },
            None => None,
        },
        None => None,
    }
}

/// What a stored content means for inode `ino`.
pub open spec fn node_of(cipher: Cipher, key: Seq<u8>, ino: u64, content: Content) -> NodeView {
    match content {
        Content::File(f) => NodeView::File(f.view_for(ino, key)),
        Content::Damaged(_) => NodeView::Damaged,
        Content::Folder(files) => NodeView::Folder(
            folder_entries(cipher, key, folder_view(files@)),
        ),
    }
}

/// Whether no two files of a folder have the same name on disk.
pub open spec fn distinct_names(files: Seq<DirFile>) -> bool {
    forall|i: int, j: int|
        0 <= i < files.len() && 0 <= j < files.len() && i != j ==> (#[trigger] files[i]).name@ != (
        #[trigger] files[j]).name@
}

/// Whether no file of a folder has a longer name than the host takes.
pub open spec fn short_names(files: Seq<DirFile>) -> bool {
    forall|i: int| 0 <= i < files.len() ==> (#[trigger] files[i]).name@.len() <= MAX_DISK_NAME_LEN
}

/// Whether a stored content is well formed.
pub open spec fn content_wf(content: Content) -> bool {
    match content {
        Content::File(f) => f.wf(),
        Content::Damaged(_) => true,
        Content::Folder(files) => distinct_names(files@) && short_names(files@),
    }
}

impl StoreView {
    /// The attributes of an inode: `NotFound` where there is no record,
    /// `Corrupted` where the record does not authenticate.
    pub open spec fn attr(self, ino: u64) -> Result<FileAttr, FsError> {
        if !self.attrs.contains_key(ino) {
            Err(FsError::NotFound)
        } else {
            match self.attrs[ino] {
                Some(a) => Ok(a),
                None => Err(FsError::Corrupted),
            }
        }
    }

    /// Whether the inode's content is a directory's folder.
    pub open spec fn is_folder(self, ino: u64) -> bool {
        self.nodes.contains_key(ino) && self.nodes[ino] is Folder
    }

    /// Whether the inode's content is that of a regular file.
    pub open spec fn is_file(self, ino: u64) -> bool {
        self.nodes.contains_key(ino) && self.nodes[ino] is File
    }

    /// The files of a directory's folder.
    pub open spec fn slots(self, ino: u64) -> Seq<Option<Entry>> {
        self.nodes[ino]->Folder_0
    }

    /// The content of a regular file.
    pub open spec fn file(self, ino: u64) -> FileView {
        self.nodes[ino]->File_0
    }

    /// The entries of a directory: `Corrupted` where the folder is missing
    /// or one of its files is no entry.
    pub open spec fn entries(self, ino: u64) -> Result<Seq<Entry>, FsError> {
        if self.is_folder(ino) && intact(self.slots(ino)) {
            Ok(listing(self.slots(ino)))
        } else {
            Err(FsError::Corrupted)
        }
    }

    /// Whether every readable record is that of the inode it is stored for.
    pub open spec fn keyed(self) -> bool {
        forall|k: u64|
            self.attrs.contains_key(k) && (#[trigger] self.attrs[k]) is Some ==> self.attrs[k].unwrap().ino
                == k
    }

    /// Whether every file has a chunk size within the limits and no more
    /// bytes than the largest number of chunks holds.
    pub open spec fn bounded(self) -> bool {
        forall|k: u64|
            self.nodes.contains_key(k) && (#[trigger] self.nodes[k]) is File ==> {
                &&& MIN_CHUNK_SIZE <= self.file(k).chunk_size <= MAX_CHUNK_SIZE
                &&& self.file(k).bytes.len() <= self.file(k).chunk_size * MAX_CHUNKS
            }
    }

    /// The store with a record of these attributes for their inode.
    pub open spec fn with_attr(self, a: FileAttr) -> StoreView {
        StoreView {
            attrs: self.attrs.insert(a.ino, Some(a)),
            nodes: self.nodes,
            dirty: self.dirty.insert(a.ino),
        }
    }

    /// The store with this folder for the inode.
    pub open spec fn with_folder(self, ino: u64, slots: Seq<Option<Entry>>) -> StoreView {
        StoreView {
            attrs: self.attrs,
            nodes: self.nodes.insert(ino, NodeView::Folder(slots)),
            dirty: self.dirty.insert(ino),
        }
    }

    /// The store with this file content for the inode.
    pub open spec fn with_file(self, ino: u64, file: FileView) -> StoreView {
        StoreView {
            attrs: self.attrs,
            nodes: self.nodes.insert(ino, NodeView::File(file)),
            dirty: self.dirty.insert(ino),
        }
    }

    /// The store without the inode's record and content.
    pub open spec fn without(self, ino: u64) -> StoreView {
        StoreView {
            attrs: self.attrs.remove(ino),
            nodes: self.nodes.remove(ino),
            dirty: self.dirty.insert(ino),
        }
    }
}

impl DataDir {
    /// Well-formedness: every stored file is well formed, and no folder
    /// holds two files of one name.
    pub closed spec fn wf(&self) -> bool {
        &&& forall|ino: u64| #[trigger]
            self.contents@.contains_key(ino) ==> content_wf(self.contents@[ino]) && ino
                <= self.high
        &&& forall|ino: u64| #[trigger] self.inodes@.contains_key(ino) ==> ino <= self.high
    }

    /// A number that no stored inode exceeds.
    pub closed spec fn bound(&self) -> u64 {
        self.high
    }

    /// No stored inode exceeds the bound.
    pub proof fn lemma_bound(&self, ino: u64)
        requires
            self.wf(),
            self.records().contains_key(ino) || self.stored().contains_key(ino),
        ensures
            ino <= self.bound(),
    {
    }

    /// Every stored content is well formed.
    pub proof fn lemma_content_wf(&self, ino: u64)
        requires
            self.wf(),
            self.stored().contains_key(ino),
        ensures
            content_wf(self.stored()[ino]),
    {
    }

    /// A number that no stored inode exceeds.
    pub fn highest(&self) -> (high: u64)
        ensures
            high == self.bound(),
    {
        self.high
    }

    /// The key file, if there is one.
    pub closed spec fn key_file(&self) -> Option<Seq<u8>> {
        match self.key {
            Some(k) => Some(k@),
            None => None,
        }
    }

    /// The stored attribute records, by inode.
    pub closed spec fn records(&self) -> Map<u64, Seq<u8>> {
        Map::new(|ino: u64| self.inodes@.contains_key(ino), |ino: u64| self.inodes@[ino]@)
    }

    /// The stored contents, by inode.
    pub closed spec fn stored(&self) -> Map<u64, Content> {
        self.contents@
    }

    /// The inodes noted as changed.
    pub closed spec fn changed(&self) -> Seq<u64> {
        self.touched@
    }

    /// What the data directory means under `key`.
    pub open spec fn interp(&self, cipher: Cipher, key: Seq<u8>) -> StoreView {
        StoreView {
            attrs: Map::new(
                |ino: u64| self.records().contains_key(ino),
                |ino: u64| attr_of(cipher, key, ino, self.records()[ino]),
            ),
            nodes: Map::new(
                |ino: u64| self.stored().contains_key(ino),
                |ino: u64| node_of(cipher, key, ino, self.stored()[ino]),
            ),
            dirty: self.changed().to_set(),
        }
    }

    /// What a well-formed data directory means is keyed and bounded.
    pub proof fn lemma_interp(&self, cipher: Cipher, key: Seq<u8>)
        requires
            self.wf(),
        ensures
            self.interp(cipher, key).keyed(),
            self.interp(cipher, key).bounded(),
    {
        let view = self.interp(cipher, key);
        assert forall|k: u64|
            view.nodes.contains_key(k) && (#[trigger] view.nodes[k]) is File implies {
            &&& MIN_CHUNK_SIZE <= view.file(k).chunk_size <= MAX_CHUNK_SIZE
            &&& view.file(k).bytes.len() <= view.file(k).chunk_size * MAX_CHUNKS
        } by {
            self.lemma_content_wf(k);
            match self.stored()[k] {
                Content::File(f) => {
                    f.lemma_plain_len_bound();
                    crate::content::lemma_mul_mono(
                        f.chunks@.len() as int,
                        MAX_CHUNKS as int,
                        f.chunk_size as int,
                    );
                    assert(f.chunk_size * MAX_CHUNKS == MAX_CHUNKS * f.chunk_size)
                        by (nonlinear_arith);
                },
                Content::Folder(_) => {},
                Content::Damaged(_) => {},
            }
        }
    }

    /// Whether `after` notes every change from this data directory to it:
    /// what this one notes as changed `after` notes too, and an inode that
    /// `after` does not note has the record and the content that it had.
    pub open spec fn kept_by(&self, after: &DataDir) -> bool {
        &&& after.key_file() == self.key_file()
        &&& forall|k: u64|
            self.changed().to_set().contains(k) ==> #[trigger] after.changed().to_set().contains(k)
        &&& forall|k: u64|
            !(#[trigger] after.changed().to_set().contains(k)) ==> {
                &&& self.records().contains_key(k) == after.records().contains_key(k)
                &&& self.records().contains_key(k) ==> self.records()[k] == after.records()[k]
                &&& self.stored().contains_key(k) == after.stored().contains_key(k)
                &&& self.stored().contains_key(k) ==> self.stored()[k] == after.stored()[k]
            }
    }

    /// Changes that are noted step by step are noted over all the steps.
    pub proof fn lemma_kept_by(&self, between: &DataDir, after: &DataDir)
        requires
            self.kept_by(between),
            between.kept_by(after),
        ensures
            self.kept_by(after),
    {
        assert forall|k: u64| !(#[trigger] after.changed().to_set().contains(k)) implies {
            &&& self.records().contains_key(k) == after.records().contains_key(k)
            &&& self.records().contains_key(k) ==> self.records()[k] == after.records()[k]
            &&& self.stored().contains_key(k) == after.stored().contains_key(k)
            &&& self.stored().contains_key(k) ==> self.stored()[k] == after.stored()[k]
        } by {
            assert(!between.changed().to_set().contains(k));
        }
        assert forall|k: u64| self.changed().to_set().contains(k) implies #[trigger] after.changed().to_set().contains(
            k,
        ) by {
            assert(between.changed().to_set().contains(k));
        }
    }

    /// Whether nothing at all is stored.
    pub open spec fn is_empty(&self) -> bool {
        &&& self.key_file() is None
        &&& self.records() == Map::<u64, Seq<u8>>::empty()
        &&& self.stored() == Map::<u64, Content>::empty()
    }

    /// An empty data directory.
    pub fn new() -> (data: DataDir)
        ensures
            data.wf(),
            data.is_empty(),
            data.changed() == Seq::<u64>::empty(),
            data.bound() == 0,
    {
        let data = DataDir {
            key: None,
            inodes: HashMap::new(),
            contents: HashMap::new(),
            touched: Vec::new(),
            high: 0,
        };
        assert(data.records() =~= Map::<u64, Seq<u8>>::empty());
        data
    }

    /// Tells whether nothing at all is stored.
    pub fn is_blank(&self) -> (blank: bool)
        ensures
            blank == self.is_empty(),
    {
        let blank = self.key.is_none() && self.inodes.is_empty() && self.contents.is_empty();
        proof {
            if self.inodes@.is_empty() {
                assert(self.records() =~= Map::<u64, Seq<u8>>::empty());
            } else {
                let k = choose|k: u64| self.inodes@.contains_key(k);
                assert(self.inodes@.dom().contains(k));
                assert(self.records().contains_key(k));
            }
            if self.contents@.is_empty() {
                assert(self.stored() =~= Map::<u64, Content>::empty());
            } else {
                let k = choose|k: u64| self.contents@.contains_key(k);
                assert(self.contents@.dom().contains(k));
            }
        }
        blank
    }

    /// The key file, if there is one.
    pub fn key(&self) -> (out: Option<&Vec<u8>>)
        ensures
            out matches Some(k) ==> self.key_file() == Some(k@),
            out is None ==> self.key_file() is None,
    {
        self.key.as_ref()
    }

    /// Puts the key file in place.
    pub fn set_key(&mut self, key: Vec<u8>)
        ensures
            final(self).key_file() == Some(key@),
            final(self).records() == old(self).records(),
            final(self).stored() == old(self).stored(),
            final(self).changed() == old(self).changed(),
            final(self).bound() == old(self).bound(),
            final(self).wf() == old(self).wf(),
    {
        self.key = Some(key);
    }

    /// The sealed attribute record of an inode, if there is one.
    pub fn inode(&self, ino: u64) -> (out: Option<&Vec<u8>>)
        ensures
            out matches Some(r) ==> self.records().contains_key(ino) && self.records()[ino] == r@,
            out is None ==> !self.records().contains_key(ino),
    {
        self.inodes.get(&ino)
    }

    /// Stores a sealed attribute record for an inode, and notes the change.
    pub(crate) fn put_inode(&mut self, ino: u64, record: Vec<u8>)
        ensures
            final(self).records() == old(self).records().insert(ino, record@),
            final(self).key_file() == old(self).key_file(),
            final(self).stored() == old(self).stored(),
            final(self).changed() == old(self).changed().push(ino),
            final(self).bound() == if ino > old(self).bound() {
                ino
            } else {
                old(self).bound()
            },
            old(self).wf() ==> final(self).wf(),
    {
        let ghost bytes = record@;
        self.inodes.insert(ino, record);
        self.touched.push(ino);
        if ino > self.high {
            self.high = ino;
        }
        assert(self.records() =~= old(self).records().insert(ino, bytes));
    }

    /// Takes in a sealed attribute record as it was found on disk; no
    /// change is noted.
    pub fn load_inode(&mut self, ino: u64, record: Vec<u8>)
        ensures
            final(self).records() == old(self).records().insert(ino, record@),
            final(self).key_file() == old(self).key_file(),
            final(self).stored() == old(self).stored(),
            final(self).changed() == old(self).changed(),
            final(self).bound() == if ino > old(self).bound() {
                ino
            } else {
                old(self).bound()
            },
            old(self).wf() ==> final(self).wf(),
    {
        let ghost bytes = record@;
        self.inodes.insert(ino, record);
        if ino > self.high {
            self.high = ino;
        }
        assert(self.records() =~= old(self).records().insert(ino, bytes));
    }

    /// Takes in what was found on disk in place of a content file; no
    /// change is noted. Bytes that have not the form of a content file are
    /// kept as damaged, and the answer is `false`.
    pub fn load_file(&mut self, ino: u64, bytes: &[u8]) -> (whole: bool)
        ensures
            whole == decodable(bytes@),
            final(self).stored() == old(self).stored().insert(ino, final(self).stored()[ino]),
            whole ==> (final(self).stored()[ino] matches Content::File(f) && file_bytes(f)
                == bytes@),
            !whole ==> (final(self).stored()[ino] matches Content::Damaged(kept) && kept@
                == bytes@),
            final(self).records() == old(self).records(),
            final(self).key_file() == old(self).key_file(),
            final(self).changed() == old(self).changed(),
            final(self).bound() == if ino > old(self).bound() {
                ino
            } else {
                old(self).bound()
            },
            old(self).wf() ==> final(self).wf(),
    {
        let whole = match ContentFile::decode(bytes) {
            Some(f) => {
                proof {
                    lemma_decodable(f);
                }
                self.contents.insert(ino, Content::File(f));
                true
            },
            None => {
                let kept = crate::bytes::copy_range(bytes, 0, bytes.len());
                assert(kept@ =~= bytes@);
                self.contents.insert(ino, Content::Damaged(kept));
                false
            },
        };
        if ino > self.high {
            self.high = ino;
        }
        whole
    }

    /// Takes in a folder as it was found on disk; no change is noted. A
    /// folder with two files of one name, or with a name longer than the
    /// host takes, is refused.
    pub fn load_folder(&mut self, ino: u64, files: Vec<DirFile>) -> (taken: bool)
        ensures
            taken == (distinct_names(files@) && short_names(files@)),
            taken ==> final(self).stored() == old(self).stored().insert(ino, Content::Folder(files)),
            !taken ==> final(self).stored() == old(self).stored(),
            final(self).records() == old(self).records(),
            final(self).key_file() == old(self).key_file(),
            final(self).changed() == old(self).changed(),
            final(self).bound() == if taken && ino > old(self).bound() {
                ino
            } else {
                old(self).bound()
            },
            old(self).wf() ==> final(self).wf(),
    {
        let mut i: usize = 0;
        while i < files.len()
            invariant
                i <= files@.len(),
                forall|a: int, b: int|
                    0 <= a < i && 0 <= b < a ==> (#[trigger] files@[a]).name@ != (
                    #[trigger] files@[b]).name@,
                forall|a: int| 0 <= a < i ==> (#[trigger] files@[a]).name@.len() <= MAX_DISK_NAME_LEN,
            decreases files@.len() - i,
        {
            if files[i].name.len() > MAX_DISK_NAME_LEN {
                return false;
            }
            let mut j: usize = 0;
            while j < i
                invariant
                    j <= i < files@.len(),
                    forall|b: int| 0 <= b < j ==> (#[trigger] files@[b]).name@ != files@[i as int].name@,
                decreases i - j,
            {
                if crate::bytes::equal(files[j].name.as_slice(), files[i].name.as_slice()) {
                    return false;
                }
                j += 1;
            }
            i += 1;
        }
        proof {
            assert forall|a: int, b: int|
                0 <= a < files@.len() && 0 <= b < files@.len() && a != b implies (
            #[trigger] files@[a]).name@ != (#[trigger] files@[b]).name@ by {
                if b < a {
                    assert(files@[a].name@ != files@[b].name@);
                } else {
                    assert(files@[b].name@ != files@[a].name@);
                }
            }
        }
        self.contents.insert(ino, Content::Folder(files));
        if ino > self.high {
            self.high = ino;
        }
        true
    }

    /// The content stored for an inode, if there is one.
    pub fn content(&self, ino: u64) -> (out: Option<&Content>)
        ensures
            out matches Some(c) ==> self.stored().contains_key(ino) && self.stored()[ino] == *c,
            out is None ==> !self.stored().contains_key(ino),
    {
        self.contents.get(&ino)
    }

    /// Stores a content for an inode, and notes the change.
    pub(crate) fn put_content(&mut self, ino: u64, content: Content)
        requires
            old(self).wf(),
            content_wf(content),
        ensures
            final(self).wf(),
            final(self).stored() == old(self).stored().insert(ino, content),
            final(self).key_file() == old(self).key_file(),
            final(self).records() == old(self).records(),
            final(self).changed() == old(self).changed().push(ino),
            final(self).bound() == if ino > old(self).bound() {
                ino
            } else {
                old(self).bound()
            },
    {
        self.contents.insert(ino, content);
        self.touched.push(ino);
        if ino > self.high {
            self.high = ino;
        }
    }

    /// Takes the content of an inode out of the store, for putting back; no
    /// change is noted.
    fn take_content(&mut self, ino: u64) -> (out: Option<Content>)
        requires
            old(self).wf(),
        ensures
            final(self).wf(),
            final(self).stored() == old(self).stored().remove(ino),
            final(self).key_file() == old(self).key_file(),
            final(self).records() == old(self).records(),
            final(self).changed() == old(self).changed(),
            final(self).bound() == old(self).bound(),
            out matches Some(c) ==> old(self).stored().contains_key(ino) && old(self).stored()[ino]
                == c && content_wf(c),
            out is None ==> !old(self).stored().contains_key(ino),
    {
        self.contents.remove(&ino)
    }

    /// Puts back a content that was taken out; no change is noted.
    fn restore_content(&mut self, ino: u64, content: Content)
        requires
            old(self).wf(),
            content_wf(content),
        ensures
            final(self).wf(),
            final(self).stored() == old(self).stored().insert(ino, content),
            final(self).key_file() == old(self).key_file(),
            final(self).records() == old(self).records(),
            final(self).changed() == old(self).changed(),
            final(self).bound() == if ino > old(self).bound() {
                ino
            } else {
                old(self).bound()
            },
    {
        self.contents.insert(ino, content);
        if ino > self.high {
            self.high = ino;
        }
    }

    /// Removes what is stored for an inode, record and content, and notes
    /// the change.
    pub(crate) fn remove(&mut self, ino: u64)
        requires
            old(self).wf(),
        ensures
            final(self).wf(),
            final(self).records() == old(self).records().remove(ino),
            final(self).stored() == old(self).stored().remove(ino),
            final(self).key_file() == old(self).key_file(),
            final(self).changed() == old(self).changed().push(ino),
            final(self).bound() == old(self).bound(),
    {
        self.inodes.remove(&ino);
        self.contents.remove(&ino);
        self.touched.push(ino);
        assert(self.records() =~= old(self).records().remove(ino));
    }

    /// Hands out the inodes noted as changed, and starts the list anew.
    pub fn take_changes(&mut self) -> (out: Vec<u64>)
        ensures
            out@ == old(self).changed(),
            final(self).changed() == Seq::<u64>::empty(),
            final(self).records() == old(self).records(),
            final(self).stored() == old(self).stored(),
            final(self).key_file() == old(self).key_file(),
            final(self).bound() == old(self).bound(),
            final(self).wf() == old(self).wf(),
    {
        let mut out: Vec<u64> = Vec::new();
        out.append(&mut self.touched);
        assert(self.contents@ == old(self).contents@);
        assert(self.inodes@ == old(self).inodes@);
        out
    }
}

/// What kind of content is stored for an inode.
#[derive(Clone, Copy, Debug, PartialEq, Eq, Structural)]
pub enum NodeKind {
    Missing,
    File,
    Folder,
    Damaged,
}

/// A data directory together with the master key that opens it.
pub struct Store {
    pub cipher: Cipher,
    pub key: SecretBytes,
    /// The chunk size of files that are made anew.
    pub chunk_size: u32,
    pub data: DataDir,
}

impl View for Store {
    type V = StoreView;

    open spec fn view(&self) -> StoreView {
        self.data.interp(self.cipher, self.key@)
    }
}

impl Store {
    /// Well-formedness: the key has the length of a key, the chunk size is
    /// within its limits, and the data directory is well formed.
    pub open spec fn wf(&self) -> bool {
        &&& self.key@.len() == KEY_LEN
        &&& MIN_CHUNK_SIZE <= self.chunk_size <= MAX_CHUNK_SIZE
        &&& self.data.wf()
    }

    /// Whether `after` is this store but for what the data directory holds.
    pub open spec fn same_keys(&self, after: &Store) -> bool {
        &&& after.cipher == self.cipher
        &&& after.key == self.key
        &&& after.chunk_size == self.chunk_size
        &&& after.data.key_file() == self.data.key_file()
    }

    /// Reads the attributes of an inode.
    pub fn read_attr(&self, ino: u64) -> (out: Result<FileAttr, FsError>)
        ensures
            out == self@.attr(ino),
    {
        let record = match self.data.inode(ino) {
            Some(record) => record,
            None => { return Err(FsError::NotFound); },
        };
        let aad: Vec<u8> = Vec::new();
        assert(aad@ =~= Seq::<u8>::empty());
        let plain = match open_record(
            self.cipher,
            self.key.expose(),
            aad.as_slice(),
            record.as_slice(),
        ) {
            Some(plain) => plain,
            None => { return Err(FsError::Corrupted); },
        };
        match decode_attr(plain.as_slice()) {
            Some(a) => {
                if a.ino == ino {
                    Ok(a)
                } else {
                    Err(FsError::Corrupted)
                }
            },
            None => Err(FsError::Corrupted),
        }
    }

    /// Seals the attributes and stores them as the record of their inode.
    pub fn write_attr(&mut self, attr: &FileAttr)
        requires
            old(self).wf(),
        ensures
            final(self).wf(),
            old(self).same_keys(final(self)),
            old(self).data.kept_by(&final(self).data),
            final(self).data.bound() == if attr.ino > old(self).data.bound() {
                attr.ino
            } else {
                old(self).data.bound()
            },
            final(self)@ == old(self)@.with_attr(*attr),
    {
        broadcast use vstd::prelude::Seq::lemma_push_to_set_commute;

        let plain = encode_attr(attr);
        proof {
            lemma_attr_roundtrip(*attr);
        }
        let aad: Vec<u8> = Vec::new();
        assert(aad@ =~= Seq::<u8>::empty());
        let record = seal_record(self.cipher, self.key.expose(), aad.as_slice(), plain.as_slice());
        self.data.put_inode(attr.ino, record);
        proof {
            let want = old(self)@.with_attr(*attr);
            assert(self@.attrs =~= want.attrs);
            assert(self@.nodes =~= want.nodes);
            assert(self@.dirty =~= want.dirty);
        }
    }

    /// Reads the attributes of an inode, changes what `set` names, and
    /// stores them again.
    pub fn update_attr(&mut self, ino: u64, set: &SetFileAttr, now: Timestamp) -> (out: Result<
        FileAttr,
        FsError,
    >)
        requires
            old(self).wf(),
        ensures
            final(self).wf(),
            old(self).same_keys(final(self)),
            old(self).data.kept_by(&final(self).data),
            match old(self)@.attr(ino) {
                Ok(a) => out == Ok::<FileAttr, FsError>(attr_set(a, *set, now)) && final(self)@
                    == old(self)@.with_attr(attr_set(a, *set, now)),
                Err(e) => out == Err::<FileAttr, FsError>(e) && final(self)@ == old(self)@,
            },
    {
        let a = match self.read_attr(ino) {
            Ok(a) => a,
            Err(e) => { return Err(e); },
        };
        let next = apply_set(&a, set, now);
        self.write_attr(&next);
        Ok(next)
    }

    /// Tells what kind of content is stored for an inode.
    pub fn node_kind(&self, ino: u64) -> (kind: NodeKind)
        ensures
            kind == NodeKind::File <==> self@.is_file(ino),
            kind == NodeKind::Folder <==> self@.is_folder(ino),
    {
        match self.data.content(ino) {
            Some(Content::File(_)) => NodeKind::File,
            Some(Content::Damaged(_)) => NodeKind::Damaged,
            Some(Content::Folder(_)) => NodeKind::Folder,
            None => NodeKind::Missing,
        }
    }

    /// Reads the entries of a directory.
    pub fn entries(&self, ino: u64) -> (out: Result<Vec<DirEntry>, FsError>)
        ensures
            out matches Ok(es) ==> self@.entries(ino) == Ok::<Seq<Entry>, FsError>(
                entries_view(es@),
            ),
            out matches Err(e) ==> self@.entries(ino) == Err::<Seq<Entry>, FsError>(e),
    {
        match self.data.content(ino) {
            Some(Content::Folder(files)) => {
                match load_folder(self.cipher, self.key.expose(), files) {
                    Some(es) => Ok(es),
                    None => Err(FsError::Corrupted),
                }
            },
            _ => Err(FsError::Corrupted),
        }
    }

    /// Adds an entry to a directory whose entries are all readable and none
    /// of which has this name.
    pub fn add_entry(&mut self, dir: u64, name: &[u8], ino: u64, kind: FileType)
        requires
            old(self).wf(),
            valid_name(name@),
            old(self)@.entries(dir) is Ok,
            unnamed(old(self)@.entries(dir).unwrap(), name@),
        ensures
            final(self).wf(),
            old(self).same_keys(final(self)),
            old(self).data.kept_by(&final(self).data),
            final(self)@ == old(self)@.with_folder(
                dir,
                old(self)@.slots(dir).push(Some(Entry { name: name@, ino, kind })),
            ),
    {
        broadcast use vstd::prelude::Seq::lemma_push_to_set_commute;

        let ghost slots = self@.slots(dir);
        let ghost before = self.data.stored();
        let file = make_entry(self.cipher, self.key.expose(), name, ino, kind);
        match self.data.take_content(dir) {
            Some(Content::Folder(mut files)) => {
                let ghost was = files@;
                files.push(file);
                proof {
                    assert(slots == folder_entries(self.cipher, self.key@, folder_view(was)));
                    assert forall|i: int, j: int|
                        0 <= i < files@.len() && 0 <= j < files@.len() && i != j implies (
                    #[trigger] files@[i]).name@ != (#[trigger] files@[j]).name@ by {
                        if i == was.len() || j == was.len() {
                            let k = if i == was.len() {
                                j
                            } else {
                                i
                            };
                            assert(slots[k] is Some);
                            assert(slots[k] == entry_of(self.cipher, self.key@, was[k]@));
                            assert(listing(slots)[k].name != name@);
                        } else {
                            assert(was[i].name@ != was[j].name@);
                        }
                    }
                }
                self.data.put_content(dir, Content::Folder(files));
                proof {
                    let want = old(self)@.with_folder(
                        dir,
                        slots.push(Some(Entry { name: name@, ino, kind })),
                    );
                    assert(folder_entries(self.cipher, self.key@, folder_view(files@)) =~= slots.push(
                        Some(Entry { name: name@, ino, kind }),
                    ));
                    assert(self.data.stored() =~= before.insert(dir, Content::Folder(files)));
                    assert(self@.attrs =~= want.attrs);
                    assert(self@.nodes =~= want.nodes);
                    assert(self@.dirty =~= want.dirty);
                }
            },
            Some(other) => {
                self.data.restore_content(dir, other);
            },
            None => {},
        }
    }

    /// Removes the file at place `index` from a directory's folder.
    pub fn remove_entry(&mut self, dir: u64, index: usize)
        requires
            old(self).wf(),
            old(self)@.is_folder(dir),
            index < old(self)@.slots(dir).len(),
        ensures
            final(self).wf(),
            old(self).same_keys(final(self)),
            old(self).data.kept_by(&final(self).data),
            final(self)@ == old(self)@.with_folder(dir, old(self)@.slots(dir).remove(index as int)),
    {
        broadcast use vstd::prelude::Seq::lemma_push_to_set_commute;

        let ghost slots = self@.slots(dir);
        let ghost before = self.data.stored();
        match self.data.take_content(dir) {
            Some(Content::Folder(mut files)) => {
                let ghost was = files@;
                files.remove(index);
                proof {
                    assert forall|i: int, j: int|
                        0 <= i < files@.len() && 0 <= j < files@.len() && i != j implies (
                    #[trigger] files@[i]).name@ != (#[trigger] files@[j]).name@ by {
                        let a = if i < index {
                            i
                        } else {
                            i + 1
                        };
                        let b = if j < index {
                            j
                        } else {
                            j + 1
                        };
                        assert(was[a].name@ != was[b].name@);
                    }
                }
                self.data.put_content(dir, Content::Folder(files));
                proof {
                    let want = old(self)@.with_folder(dir, slots.remove(index as int));
                    assert(folder_entries(self.cipher, self.key@, folder_view(files@))
                        =~= slots.remove(index as int));
                    assert(self.data.stored() =~= before.insert(dir, Content::Folder(files)));
                    assert(self@.attrs =~= want.attrs);
                    assert(self@.nodes =~= want.nodes);
                    assert(self@.dirty =~= want.dirty);
                }
            },
            Some(other) => {
                self.data.restore_content(dir, other);
            },
            None => {},
        }
    }

    /// Makes the entry at place `index` of a directory lead to another inode.
    pub fn retarget_entry(&mut self, dir: u64, index: usize, ino: u64, kind: FileType)
        requires
            old(self).wf(),
            old(self)@.is_folder(dir),
            index < old(self)@.slots(dir).len(),
            old(self)@.slots(dir)[index as int] is Some,
        ensures
            final(self).wf(),
            old(self).same_keys(final(self)),
            old(self).data.kept_by(&final(self).data),
            final(self)@ == old(self)@.with_folder(
                dir,
                old(self)@.slots(dir).update(
                    index as int,
                    Some(
                        Entry { name: old(self)@.slots(dir)[index as int].unwrap().name, ino, kind },
                    ),
                ),
            ),
    {
        broadcast use vstd::prelude::Seq::lemma_push_to_set_commute;

        let ghost slots = self@.slots(dir);
        let ghost before = self.data.stored();
        match self.data.take_content(dir) {
            Some(Content::Folder(mut files)) => {
                let ghost was = files@;
                assert(slots == folder_entries(self.cipher, self.key@, folder_view(was)));
                assert(slots[index as int] == entry_of(self.cipher, self.key@, was[index as int]@));
                let payload = make_payload(
                    self.cipher,
                    self.key.expose(),
                    files[index].name.as_slice(),
                    ino,
                    kind,
                );
                let mut file = files.remove(index);
                file.payload = payload;
                let ghost put = file;
                files.insert(index, file);
                proof {
                    assert(files@ =~= was.update(index as int, put));
                    assert forall|i: int, j: int|
                        0 <= i < files@.len() && 0 <= j < files@.len() && i != j implies (
                    #[trigger] files@[i]).name@ != (#[trigger] files@[j]).name@ by {
                        assert(was[i].name@ != was[j].name@);
                    }
                    assert forall|i: int| 0 <= i < files@.len() implies (
                    #[trigger] files@[i]).name@.len() <= MAX_DISK_NAME_LEN by {
                        assert(was[i].name@.len() <= MAX_DISK_NAME_LEN);
                    }
                }
                self.data.put_content(dir, Content::Folder(files));
                proof {
                    let next = slots.update(
                        index as int,
                        Some(Entry { name: slots[index as int].unwrap().name, ino, kind }),
                    );
                    let want = old(self)@.with_folder(dir, next);
                    assert(folder_entries(self.cipher, self.key@, folder_view(files@)) =~= next);
                    assert(self.data.stored() =~= before.insert(dir, Content::Folder(files)));
                    assert(self@.attrs =~= want.attrs);
                    assert(self@.nodes =~= want.nodes);
                    assert(self@.dirty =~= want.dirty);
                }
            },
            Some(other) => {
                self.data.restore_content(dir, other);
            },
            None => {},
        }
    }

    /// Stores an empty folder for an inode.
    pub fn create_folder(&mut self, ino: u64)
        requires
            old(self).wf(),
        ensures
            final(self).wf(),
            old(self).same_keys(final(self)),
            old(self).data.kept_by(&final(self).data),
            final(self).data.bound() == if ino > old(self).data.bound() {
                ino
            } else {
                old(self).data.bound()
            },
            final(self)@ == old(self)@.with_folder(ino, Seq::empty()),
    {
        broadcast use vstd::prelude::Seq::lemma_push_to_set_commute;

        let files: Vec<DirFile> = Vec::new();
        self.data.put_content(ino, Content::Folder(files));
        proof {
            let want = old(self)@.with_folder(ino, Seq::empty());
            assert(folder_entries(self.cipher, self.key@, folder_view(files@)) =~= Seq::<
                Option<Entry>,
            >::empty());
            assert(self@.attrs =~= want.attrs);
            assert(self@.nodes =~= want.nodes);
            assert(self@.dirty =~= want.dirty);
        }
    }

    /// Stores an empty file for an inode, with the store's chunk size.
    pub fn create_file(&mut self, ino: u64)
        requires
            old(self).wf(),
        ensures
            final(self).wf(),
            old(self).same_keys(final(self)),
            old(self).data.kept_by(&final(self).data),
            final(self)@ == old(self)@.with_file(
                ino,
                FileView {
                    chunk_size: old(self).chunk_size,
                    generation: 0,
                    intact: true,
                    bytes: Seq::empty(),
                },
            ),
    {
        broadcast use vstd::prelude::Seq::lemma_push_to_set_commute;

        let file = ContentFile::new(self.cipher, self.chunk_size, ino, self.key.expose());
        assert(file.plain(ino, self.key@) =~= Seq::<Option<u8>>::empty());
        self.data.put_content(ino, Content::File(file));
        proof {
            let want = old(self)@.with_file(
                ino,
                FileView {
                    chunk_size: old(self).chunk_size,
                    generation: 0,
                    intact: true,
                    bytes: Seq::empty(),
                },
            );
            assert(self@.attrs =~= want.attrs);
            assert(self@.nodes =~= want.nodes);
            assert(self@.dirty =~= want.dirty);
        }
    }

    /// Removes the record and the content of an inode.
    pub fn remove(&mut self, ino: u64)
        requires
            old(self).wf(),
        ensures
            final(self).wf(),
            old(self).same_keys(final(self)),
            old(self).data.kept_by(&final(self).data),
            final(self)@ == old(self)@.without(ino),
    {
        broadcast use vstd::prelude::Seq::lemma_push_to_set_commute;

        self.data.remove(ino);
        proof {
            let want = old(self)@.without(ino);
            assert(self@.attrs =~= want.attrs);
            assert(self@.nodes =~= want.nodes);
            assert(self@.dirty =~= want.dirty);
        }
    }

    /// Number of plaintext bytes that are stored for a regular file.
    pub fn file_len(&self, ino: u64) -> (len: u64)
        requires
            self.wf(),
            self@.is_file(ino),
        ensures
            len == self@.file(ino).bytes.len(),
    {
        match self.data.content(ino) {
            Some(Content::File(f)) => {
                proof {
                    self.data.lemma_content_wf(ino);
                }
                f.len()
            },
            _ => 0,
        }
    }

    /// Reads up to `len` bytes at `offset` of a regular file whose
    /// attributes give it `limit` bytes.
    pub fn read_file(&self, ino: u64, offset: u64, len: usize, limit: u64) -> (out: Result<
        Vec<u8>,
        FsError,
    >)
        requires
            self.wf(),
            self@.is_file(ino),
        ensures
            out matches Ok(data) ==> self@.file(ino).read(offset as int, len as int, limit as int)
                == Ok::<Seq<u8>, FsError>(data@),
            out matches Err(e) ==> self@.file(ino).read(offset as int, len as int, limit as int)
                == Err::<Seq<u8>, FsError>(e),
    {
        match self.data.content(ino) {
            Some(Content::File(f)) => {
                proof {
                    self.data.lemma_content_wf(ino);
                }
                f.read(ino, self.key.expose(), offset, len, limit)
            },
            _ => Err(FsError::Corrupted),
        }
    }

    /// Writes `data` at `offset` of a regular file. On an error nothing
    /// changes.
    pub fn write_file(&mut self, ino: u64, offset: u64, data: &[u8]) -> (out: Result<(), FsError>)
        requires
            old(self).wf(),
            old(self)@.is_file(ino),
        ensures
            final(self).wf(),
            old(self).same_keys(final(self)),
            old(self).data.kept_by(&final(self).data),
            out is Ok ==> {
                &&& old(self)@.file(ino).written(offset as int, data@) is Ok
                &&& final(self)@ == old(self)@.with_file(
                    ino,
                    old(self)@.file(ino).written(offset as int, data@).unwrap(),
                )
            },
            out matches Err(e) ==> final(self)@ == old(self)@ && old(self)@.file(ino).written(offset as int, data@)
                == Err::<FileView, FsError>(e),
    {
        broadcast use vstd::prelude::Seq::lemma_push_to_set_commute;

        let ghost before = self.data.stored();
        let ghost view = self@;
        match self.data.take_content(ino) {
            Some(Content::File(mut f)) => {
                let ghost was = f;
                let out = f.write(ino, self.key.expose(), offset, data);
                match out {
                    Ok(()) => {
                        self.data.put_content(ino, Content::File(f));
                        proof {
                            let want = view.with_file(ino, f.view_for(ino, self.key@));
                            assert(self.data.stored() =~= before.insert(ino, Content::File(f)));
                            assert(self@.attrs =~= want.attrs);
                            assert(self@.nodes =~= want.nodes);
                            assert(self@.dirty =~= want.dirty);
                        }
                        Ok(())
                    },
                    Err(e) => {
                        self.data.restore_content(ino, Content::File(f));
                        proof {
                            assert(self.data.stored() =~= before);
                            assert(self@.attrs =~= view.attrs);
                            assert(self@.nodes =~= view.nodes);
                        }
                        Err(e)
                    },
                }
            },
            Some(other) => {
                self.data.restore_content(ino, other);
                Err(FsError::Corrupted)
            },
            None => Err(FsError::Corrupted),
        }
    }

    /// Cuts or grows a regular file to `size` bytes. On an error nothing
    /// changes.
    pub fn resize_file(&mut self, ino: u64, size: u64) -> (out: Result<(), FsError>)
        requires
            old(self).wf(),
            old(self)@.is_file(ino),
        ensures
            final(self).wf(),
            old(self).same_keys(final(self)),
            old(self).data.kept_by(&final(self).data),
            out is Ok ==> {
                &&& old(self)@.file(ino).resized(size as int) is Ok
                &&& final(self)@ == old(self)@.with_file(
                    ino,
                    old(self)@.file(ino).resized(size as int).unwrap(),
                )
            },
            out matches Err(e) ==> final(self)@ == old(self)@ && old(self)@.file(ino).resized(size as int)
                == Err::<FileView, FsError>(e),
    {
        broadcast use vstd::prelude::Seq::lemma_push_to_set_commute;

        let ghost before = self.data.stored();
        let ghost view = self@;
        match self.data.take_content(ino) {
            Some(Content::File(mut f)) => {
                let ghost was = f;
                let out = f.resize(ino, self.key.expose(), size);
                match out {
                    Ok(()) => {
                        self.data.put_content(ino, Content::File(f));
                        proof {
                            let want = view.with_file(ino, f.view_for(ino, self.key@));
                            assert(self.data.stored() =~= before.insert(ino, Content::File(f)));
                            assert(self@.attrs =~= want.attrs);
                            assert(self@.nodes =~= want.nodes);
                            assert(self@.dirty =~= want.dirty);
                        }
                        Ok(())
                    },
                    Err(e) => {
                        self.data.restore_content(ino, Content::File(f));
                        proof {
                            assert(self.data.stored() =~= before);
                            assert(self@.attrs =~= view.attrs);
                            assert(self@.nodes =~= view.nodes);
                        }
                        Err(e)
                    },
                }
            },
            Some(other) => {
                self.data.restore_content(ino, other);
                Err(FsError::Corrupted)
            },
            None => Err(FsError::Corrupted),
        }
    }
}

} // verus!
