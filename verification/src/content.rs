//! The content store: a file's plaintext is cut into chunks of a fixed size,
//! and each chunk is sealed on its own, bound to the inode and to its place
//! in the file. The header in front of the chunks carries a seal of its own,
//! bound to the inode and to every field of the header.
use vstd::arithmetic::div_mod::{lemma_fundamental_div_mod, lemma_fundamental_div_mod_converse};
use vstd::bytes::{
    lemma_auto_spec_u32_to_from_le_bytes, spec_u32_from_le_bytes, spec_u32_to_le_bytes,
    spec_u64_to_le_bytes, u32_from_le_bytes, u32_to_le_bytes, u64_to_le_bytes,
};
use vstd::slice::slice_subrange;
use vstd::prelude::*;

use crate::bytes::{append, copy_range, encode_words, lemma_words_bytes, words_bytes};
use crate::cipher::{
    open_record, record_of, record_plain, seal_record, seal_record_with, Cipher, KEY_LEN,
    NONCE_LEN, RECORD_OVERHEAD,
};
use crate::error::FsError;
use crate::secret::random_bytes;

verus! {

/// Smallest chunk size that a file can have.
pub const MIN_CHUNK_SIZE: u32 = 16;

/// Chunk size of a file unless another is asked for: 256 KiB.
pub const DEFAULT_CHUNK_SIZE: u32 = 0x4_0000;

/// Largest chunk size that a file can have: 16 MiB.
pub const MAX_CHUNK_SIZE: u32 = 0x100_0000;

/// Largest number of chunks of one file.
pub const MAX_CHUNKS: usize = 0x1000_0000;

/// The ciphertext of one regular file: what its header holds, and its sealed
/// chunks in order.
pub struct ContentFile {
    /// The random value, drawn when the file was made, that every chunk
    /// nonce of this file starts from.
    pub nonce_base: Vec<u8>,
    /// Plaintext bytes in every chunk but the last, which may hold fewer.
    pub chunk_size: u32,
    pub cipher: Cipher,
    /// Counts the writes to this file, so that no chunk is sealed twice
    /// under one nonce. A file whose count has come to the last number
    /// takes no write.
    pub generation: u32,
    /// The sealed record that authenticates the header for the inode: it
    /// holds nothing, and is bound to the inode and to the fields above.
    pub seal: Vec<u8>,
    pub chunks: Vec<Vec<u8>>,
}

/// What a content file means under a key: the chunk size and the generation
/// that its header names, whether the header authenticates, and the bytes,
/// where `None` stands for a byte of a chunk that does not authenticate.
pub struct FileView {
    pub chunk_size: u32,
    pub generation: u32,
    pub intact: bool,
    pub bytes: Seq<Option<u8>>,
}

/// What a chunk is bound to: the inode and the chunk's index.
pub open spec fn chunk_aad(ino: u64, index: u64) -> Seq<u8> {
    words_bytes(seq![ino, index])
}

/// What is mixed into the nonce base for one sealing of one chunk.
pub open spec fn nonce_mix(ino: u64, index: u64, generation: u32) -> Seq<u8> {
    spec_u64_to_le_bytes(index ^ ino) + spec_u32_to_le_bytes(generation)
}

/// The nonce under which chunk `index` of inode `ino` is sealed at the given
/// generation of the file.
pub open spec fn chunk_nonce(base: Seq<u8>, ino: u64, index: u64, generation: u32) -> Seq<u8> {
    Seq::new(NONCE_LEN as nat, |i: int| base[i] ^ nonce_mix(ino, index, generation)[i])
}

/// No two sealings of chunks of one file share a nonce, unless they seal
/// the same chunk at the same generation.
pub proof fn lemma_chunk_nonce_injective(
    base: Seq<u8>,
    ino: u64,
    index: u64,
    generation: u32,
    other_index: u64,
    other_generation: u32,
)
    requires
        chunk_nonce(base, ino, index, generation) == chunk_nonce(
            base,
            ino,
            other_index,
            other_generation,
        ),
    ensures
        index == other_index,
        generation == other_generation,
{
    vstd::bytes::lemma_auto_spec_u64_to_from_le_bytes();
    lemma_auto_spec_u32_to_from_le_bytes();
    let one = nonce_mix(ino, index, generation);
    let two = nonce_mix(ino, other_index, other_generation);
    let n1 = chunk_nonce(base, ino, index, generation);
    let n2 = chunk_nonce(base, ino, other_index, other_generation);
    assert forall|k: int| 0 <= k < NONCE_LEN implies one[k] == two[k] by {
        let b = base[k];
        let x = one[k];
        let y = two[k];
        assert(n1[k] == b ^ x);
        assert(n2[k] == b ^ y);
        assert(b ^ x == b ^ y ==> x == y) by (bit_vector);
    }
    assert(one =~= two);
    let w1 = spec_u64_to_le_bytes(index ^ ino);
    let w2 = spec_u64_to_le_bytes(other_index ^ ino);
    assert(w1 =~= one.subrange(0, 8));
    assert(w2 =~= two.subrange(0, 8));
    assert(spec_u32_to_le_bytes(generation) =~= one.subrange(8, 12));
    assert(spec_u32_to_le_bytes(other_generation) =~= two.subrange(8, 12));
    let a = index ^ ino;
    let c = other_index ^ ino;
    assert(vstd::bytes::spec_u64_from_le_bytes(w1) == a);
    assert(vstd::bytes::spec_u64_from_le_bytes(w2) == c);
    assert(a == c);
    assert(index ^ ino == other_index ^ ino ==> index == other_index) by (bit_vector);
    assert(spec_u32_from_le_bytes(spec_u32_to_le_bytes(generation)) == generation);
    assert(spec_u32_from_le_bytes(spec_u32_to_le_bytes(other_generation)) == other_generation);
}

/// The byte that a position of a file is written to by a write of `data` at
/// `offset`: the data where the write covers it, what was there where
/// something was, and zero in the gap between the old end and the write.
pub open spec fn written_byte(old: Seq<Option<u8>>, offset: int, data: Seq<u8>, p: int) -> Option<
    u8,
> {
    if offset <= p < offset + data.len() {
        Some(data[p - offset])
    } else if p < old.len() {
        old[p]
    } else {
        Some(0u8)
    }
}

/// The content of a file after a write of `data` at `offset`.
pub open spec fn written(old: Seq<Option<u8>>, offset: int, data: Seq<u8>) -> Seq<Option<u8>> {
    let end = if old.len() >= offset + data.len() {
        old.len() as int
    } else {
        offset + data.len()
    };
    Seq::new(end as nat, |p: int| written_byte(old, offset, data, p))
}

/// Where a read of `len` bytes at `offset` ends in a file of `limit` bytes.
pub open spec fn read_end(offset: int, len: int, limit: int) -> int {
    if offset + len <= limit {
        offset + len
    } else {
        limit
    }
}

/// Whether every byte of `plain` from `from` up to `to` is there and authentic.
pub open spec fn readable(plain: Seq<Option<u8>>, from: int, to: int) -> bool {
    &&& to <= plain.len()
    &&& forall|p: int| from <= p < to ==> (#[trigger] plain[p]) is Some
}

/// What a read gives: the bytes from `offset` up to the end of the read, or
/// `Corrupted` where one of them is missing or does not authenticate.
pub open spec fn read_result(plain: Seq<Option<u8>>, offset: int, len: int, limit: int) -> Result<
    Seq<u8>,
    FsError,
> {
    let end = read_end(offset, len, limit);
    if offset >= end {
        Ok(Seq::empty())
    } else if readable(plain, offset, end) {
        Ok(Seq::new((end - offset) as nat, |i: int| plain[offset + i].unwrap()))
    } else {
        Err(FsError::Corrupted)
    }
}

/// A position of the plaintext lies in exactly one chunk.
pub proof fn lemma_locate(cs: int, n: int, last: int, pos: int)
    requires
        cs > 0,
        n >= 1,
        0 < last <= cs,
        0 <= pos < (n - 1) * cs + last,
    ensures
        0 <= pos / cs < n,
        0 <= pos % cs < cs,
        pos == (pos / cs) * cs + pos % cs,
        pos / cs == n - 1 ==> pos % cs < last,
{
    lemma_fundamental_div_mod(pos, cs);
    let q = pos / cs;
    let r = pos % cs;
    assert(0 <= r < cs) by (nonlinear_arith)
        requires
            cs > 0,
            r == pos % cs,
    ;
    assert(cs * q == q * cs) by (nonlinear_arith);
    assert(0 <= q < n) by (nonlinear_arith)
        requires
            pos == q * cs + r,
            0 <= r < cs,
            0 <= pos < (n - 1) * cs + last,
            last <= cs,
            cs > 0,
    ;
    if q == n - 1 {
        assert(r < last);
    }
}

/// The position `j` bytes into chunk `index` lies in that chunk, `j` bytes in.
pub proof fn lemma_position(cs: int, index: int, j: int)
    requires
        cs > 0,
        index >= 0,
        0 <= j < cs,
    ensures
        (index * cs + j) / cs == index,
        (index * cs + j) % cs == j,
{
    lemma_fundamental_div_mod_converse(index * cs + j, cs, index, j);
}

/// Whether position `p` of a file of `old_len` bytes lies in a chunk that a
/// write of `len` bytes at `offset` seals anew.
pub open spec fn touched(cs: int, old_len: int, offset: int, len: int, p: int) -> bool {
    let start = if offset <= old_len {
        offset
    } else {
        old_len
    };
    &&& start < offset + len
    &&& (start / cs) * cs <= p < old_len
    &&& p < ((offset + len - 1) / cs + 1) * cs
}

/// Whether a write of `len` bytes at `offset` can be made: every byte of
/// the chunks that it seals anew is authentic.
pub open spec fn writable(plain: Seq<Option<u8>>, cs: int, offset: int, len: int) -> bool {
    forall|p: int| touched(cs, plain.len() as int, offset, len, p) ==> (#[trigger] plain[p]) is Some
}

/// A number lies between the multiples of `cs` around it.
pub proof fn lemma_div_range(x: int, cs: int)
    requires
        x >= 0,
        cs > 0,
    ensures
        0 <= x / cs,
        (x / cs) * cs <= x < (x / cs + 1) * cs,
{
    lemma_fundamental_div_mod(x, cs);
    let q = x / cs;
    let r = x % cs;
    assert(0 <= r < cs) by (nonlinear_arith)
        requires
            cs > 0,
            r == x % cs,
    ;
    assert(cs * q == q * cs && (q + 1) * cs == q * cs + cs) by (nonlinear_arith);
    assert(q >= 0) by (nonlinear_arith)
        requires
            x == q * cs + r,
            x >= 0,
            0 <= r < cs,
            cs > 0,
    ;
}

/// Multiplying by a chunk size keeps the order.
pub proof fn lemma_mul_mono(a: int, b: int, cs: int)
    requires
        a <= b,
        cs >= 0,
    ensures
        a * cs <= b * cs,
{
    assert(a * cs <= b * cs) by (nonlinear_arith)
        requires
            a <= b,
            cs >= 0,
    ;
}

/// What lies below `k` chunks lies in a chunk below `k`.
pub proof fn lemma_div_below(x: int, k: int, cs: int)
    requires
        0 <= x < k * cs,
        cs > 0,
    ensures
        x / cs < k,
{
    lemma_div_range(x, cs);
    if x / cs >= k {
        lemma_mul_mono(k, x / cs, cs);
    }
}

/// Whether a write of `len` bytes at `offset` into a file of `old_len`
/// bytes seals chunk `index` anew.
pub open spec fn resealed(cs: int, old_len: int, offset: int, len: int, index: int) -> bool {
    let start = if offset <= old_len {
        offset
    } else {
        old_len
    };
    start < offset + len && start / cs <= index <= (offset + len - 1) / cs
}

/// What a write makes of a file's content: nothing changes for an empty
/// write; a write beyond the largest file is refused; one that touches a
/// chunk that does not authenticate fails; every other write leaves the
/// data at its place, with zeros in the gap behind the old end.
pub open spec fn write_result(plain: Seq<Option<u8>>, cs: int, offset: int, data: Seq<u8>) -> Result<
    Seq<Option<u8>>,
    FsError,
> {
    if data.len() == 0 {
        Ok(plain)
    } else if offset + data.len() > cs * MAX_CHUNKS {
        Err(FsError::InvalidInput)
    } else if !writable(plain, cs, offset, data.len() as int) {
        Err(FsError::Corrupted)
    } else {
        Ok(written(plain, offset, data))
    }
}

/// The content of a file cut or grown to `size` bytes: what was there stays,
/// and zeros fill what is new.
pub open spec fn resized(plain: Seq<Option<u8>>, size: int) -> Seq<Option<u8>> {
    Seq::new(
        size as nat,
        |p: int|
            if p < plain.len() {
                plain[p]
            } else {
                Some(0u8)
            },
    )
}

/// What cutting or growing a file to `size` bytes makes of its content. A
/// size beyond the largest file is refused. The chunk that the new end cuts
/// through, or that growing fills up, has to authenticate.
pub open spec fn resize_result(plain: Seq<Option<u8>>, cs: int, size: int) -> Result<
    Seq<Option<u8>>,
    FsError,
> {
    if size > cs * MAX_CHUNKS {
        Err(FsError::InvalidInput)
    } else if size < plain.len() && size % cs != 0 && plain[size - 1] is None {
        Err(FsError::Corrupted)
    } else if size > plain.len() && !writable(plain, cs, size, 0) {
        Err(FsError::Corrupted)
    } else {
        Ok(resized(plain, size))
    }
}

impl ContentFile {
    /// Well-formedness: the nonce base has the length of a nonce and the
    /// header's seal that of an empty record, the chunk size and the number
    /// of chunks are within their limits, every chunk but the last is full,
    /// and the last holds at least one byte.
    pub open spec fn wf(&self) -> bool {
        &&& self.nonce_base@.len() == NONCE_LEN
        &&& self.seal@.len() == RECORD_OVERHEAD
        &&& MIN_CHUNK_SIZE <= self.chunk_size <= MAX_CHUNK_SIZE
        &&& self.chunks@.len() <= MAX_CHUNKS
        &&& forall|i: int|
            0 <= i < self.chunks@.len() - 1 ==> (#[trigger] self.chunks@[i])@.len()
                == self.chunk_size + RECORD_OVERHEAD
        &&& self.chunks@.len() > 0 ==> RECORD_OVERHEAD < self.chunks@.last()@.len()
            <= self.chunk_size + RECORD_OVERHEAD
    }

    /// Number of plaintext bytes in chunk `i`.
    pub open spec fn chunk_len(&self, i: int) -> int {
        self.chunks@[i]@.len() - RECORD_OVERHEAD
    }

    /// Number of plaintext bytes in the file.
    pub open spec fn plain_len(&self) -> int {
        if self.chunks@.len() == 0 {
            0
        } else {
            (self.chunks@.len() - 1) * self.chunk_size + self.chunk_len(self.chunks@.len() - 1)
        }
    }

    /// The plaintext of chunk `i`, or `None` where the chunk does not
    /// authenticate for this inode and place.
    pub open spec fn chunk_plain(&self, ino: u64, key: Seq<u8>, i: int) -> Option<Seq<u8>> {
        match record_plain(self.cipher, key, chunk_aad(ino, i as u64), self.chunks@[i]@) {
            Some(p) => if p.len() == self.chunk_len(i) {
                Some(p)
            } else {
                None
            },
            None => None,
        }
    }

    /// The plaintext byte at position `p`, or `None` where its chunk does not
    /// authenticate.
    pub open spec fn byte_at(&self, ino: u64, key: Seq<u8>, p: int) -> Option<u8> {
        match self.chunk_plain(ino, key, p / (self.chunk_size as int)) {
            Some(c) => Some(c[p % (self.chunk_size as int)]),
            None => None,
        }
    }

    /// The plaintext of the file, byte by byte.
    pub open spec fn plain(&self, ino: u64, key: Seq<u8>) -> Seq<Option<u8>> {
        Seq::new(self.plain_len() as nat, |p: int| self.byte_at(ino, key, p))
    }

    /// A position below the plaintext length lies in a chunk, within what
    /// the chunk holds.
    pub proof fn lemma_in_chunk(&self, pos: int)
        requires
            self.wf(),
            0 <= pos < self.plain_len(),
        ensures
            0 <= pos / (self.chunk_size as int) < self.chunks@.len(),
            0 <= pos % (self.chunk_size as int) < self.chunk_len(pos / (self.chunk_size as int)),
            pos == (pos / (self.chunk_size as int)) * self.chunk_size + pos % (
            self.chunk_size as int),
    {
        let n = self.chunks@.len() as int;
        let cs = self.chunk_size as int;
        lemma_locate(cs, n, self.chunk_len(n - 1), pos);
        let q = pos / cs;
        if q < n - 1 {
            assert(self.chunks@[q]@.len() == cs + RECORD_OVERHEAD);
        }
    }

    /// The plaintext length is within what positions can hold.
    pub proof fn lemma_plain_len_bound(&self)
        requires
            self.wf(),
        ensures
            0 <= self.plain_len() <= self.chunks@.len() * self.chunk_size,
            self.chunks@.len() * self.chunk_size <= MAX_CHUNKS * MAX_CHUNK_SIZE,
    {
        let n = self.chunks@.len() as int;
        let cs = self.chunk_size as int;
        assert(n * cs <= MAX_CHUNKS * MAX_CHUNK_SIZE) by (nonlinear_arith)
            requires
                0 <= n <= MAX_CHUNKS,
                0 <= cs <= MAX_CHUNK_SIZE,
        ;
        if n > 0 {
            assert((n - 1) * cs + cs == n * cs) by (nonlinear_arith);
            assert((n - 1) * cs >= 0) by (nonlinear_arith)
                requires
                    n >= 1,
                    cs >= 0,
            ;
        } else {
            assert(n * cs == 0) by (nonlinear_arith)
                requires
                    n == 0,
            ;
        }
    }

    /// An empty file for an inode, with the given nonce base, and with its
    /// header sealed under the given nonce.
    pub fn with_base(
        cipher: Cipher,
        chunk_size: u32,
        ino: u64,
        key: &[u8],
        nonce_base: Vec<u8>,
        nonce: &[u8],
    ) -> (file: ContentFile)
        requires
            MIN_CHUNK_SIZE <= chunk_size <= MAX_CHUNK_SIZE,
            key@.len() == KEY_LEN,
            nonce_base@.len() == NONCE_LEN,
            nonce@.len() == NONCE_LEN,
        ensures
            file.wf(),
            file.cipher == cipher,
            file.chunk_size == chunk_size,
            file.generation == 0,
            file.chunks@.len() == 0,
            file.nonce_base@ == nonce_base@,
            file.seal@ == record_of(cipher, key@, nonce@, header_aad(ino, file), Seq::empty()),
            file.header_ok(ino, key@),
    {
        let mut file = ContentFile {
            nonce_base,
            chunk_size,
            cipher,
            generation: 0,
            seal: Vec::new(),
            chunks: Vec::new(),
        };
        let aad = file.aad_of_header(ino);
        let nothing: Vec<u8> = Vec::new();
        assert(nothing@ =~= Seq::<u8>::empty());
        file.seal = seal_record_with(cipher, key, nonce, aad.as_slice(), nothing.as_slice());
        file
    }

    /// An empty file for an inode, with a nonce base drawn at random.
    pub fn new(cipher: Cipher, chunk_size: u32, ino: u64, key: &[u8]) -> (file: ContentFile)
        requires
            MIN_CHUNK_SIZE <= chunk_size <= MAX_CHUNK_SIZE,
            key@.len() == KEY_LEN,
        ensures
            file.wf(),
            file.cipher == cipher,
            file.chunk_size == chunk_size,
            file.generation == 0,
            file.chunks@.len() == 0,
            file.header_ok(ino, key@),
    {
        let nonce_base = random_bytes(NONCE_LEN);
        let nonce = random_bytes(NONCE_LEN);
        Self::with_base(cipher, chunk_size, ino, key, nonce_base, nonce.as_slice())
    }

    /// Whether the header authenticates for the inode.
    pub open spec fn header_ok(&self, ino: u64, key: Seq<u8>) -> bool {
        record_plain(self.cipher, key, header_aad(ino, *self), self.seal@) == Some(
            Seq::<u8>::empty(),
        )
    }

    /// What the file means under a key.
    pub open spec fn view_for(&self, ino: u64, key: Seq<u8>) -> FileView {
        FileView {
            chunk_size: self.chunk_size,
            generation: self.generation,
            intact: self.header_ok(ino, key),
            bytes: self.plain(ino, key),
        }
    }

    /// The fields of the header as they stand on disk.
    fn fields(&self) -> (out: Vec<u8>)
        ensures
            out@ == header_fields(*self),
            out@.len() == self.nonce_base@.len() + 9,
    {
        let mut out: Vec<u8> = Vec::new();
        append(&mut out, self.nonce_base.as_slice());
        let cs = u32_to_le_bytes(self.chunk_size);
        append(&mut out, cs.as_slice());
        out.push(
            match self.cipher {
                Cipher::ChaCha20 => 0u8,
                Cipher::Aes256Gcm => 1u8,
            },
        );
        let generation = u32_to_le_bytes(self.generation);
        append(&mut out, generation.as_slice());
        assert(out@ =~= header_fields(*self));
        out
    }

    /// What the header's seal is bound to.
    fn aad_of_header(&self, ino: u64) -> (out: Vec<u8>)
        ensures
            out@ == header_aad(ino, *self),
            out@.len() == self.nonce_base@.len() + 17,
    {
        let mut out = u64_to_le_bytes(ino);
        let fields = self.fields();
        append(&mut out, fields.as_slice());
        out
    }

    /// Tests whether the header authenticates for the inode.
    pub fn check_header(&self, ino: u64, key: &[u8]) -> (ok: bool)
        ensures
            ok == self.header_ok(ino, key@),
    {
        let aad = self.aad_of_header(ino);
        match open_record(self.cipher, key, aad.as_slice(), self.seal.as_slice()) {
            Some(p) => {
                let ok = p.len() == 0;
                assert(ok ==> p@ =~= Seq::<u8>::empty());
                ok
            },
            None => false,
        }
    }

    /// Seals the header anew, as it now stands.
    fn reseal(&mut self, ino: u64, key: &[u8])
        requires
            old(self).nonce_base@.len() == NONCE_LEN,
            key@.len() == KEY_LEN,
        ensures
            final(self).header_ok(ino, key@),
            final(self).seal@.len() == RECORD_OVERHEAD,
            final(self).nonce_base == old(self).nonce_base,
            final(self).chunk_size == old(self).chunk_size,
            final(self).cipher == old(self).cipher,
            final(self).generation == old(self).generation,
            final(self).chunks == old(self).chunks,
    {
        let aad = self.aad_of_header(ino);
        let nothing: Vec<u8> = Vec::new();
        assert(nothing@ =~= Seq::<u8>::empty());
        self.seal = seal_record(self.cipher, key, aad.as_slice(), nothing.as_slice());
    }

    /// Number of plaintext bytes in the file.
    pub fn len(&self) -> (len: u64)
        requires
            self.wf(),
        ensures
            len == self.plain_len(),
    {
        proof {
            self.lemma_plain_len_bound();
        }
        let n = self.chunks.len();
        if n == 0 {
            0
        } else {
            let cs = self.chunk_size as u64;
            assert((n - 1) * cs <= n * cs) by (nonlinear_arith)
                requires
                    n >= 1,
                    cs >= 0,
            ;
            (n as u64 - 1) * cs + (self.chunks[n - 1].len() - RECORD_OVERHEAD) as u64
        }
    }

    /// The associated data of chunk `index`.
    fn aad(ino: u64, index: u64) -> (out: Vec<u8>)
        ensures
            out@ == chunk_aad(ino, index),
            out@.len() == 16,
    {
        let ws: Vec<u64> = vec![ino, index];
        proof {
            assert(ws@ =~= seq![ino, index]);
            lemma_words_bytes(ws@);
        }
        encode_words(ws.as_slice())
    }

    /// Opens chunk `index`.
    fn open_chunk(&self, ino: u64, key: &[u8], index: usize) -> (out: Option<Vec<u8>>)
        requires
            self.wf(),
            index < self.chunks@.len(),
        ensures
            out matches Some(c) ==> self.chunk_plain(ino, key@, index as int) == Some(c@),
            out is None ==> self.chunk_plain(ino, key@, index as int) is None,
    {
        let aad = Self::aad(ino, index as u64);
        open_record(self.cipher, key, aad.as_slice(), self.chunks[index].as_slice())
    }

    /// Reads up to `len` bytes at `offset` of a file whose attributes give it
    /// `limit` bytes, whatever the header says.
    fn read_body(&self, ino: u64, key: &[u8], offset: u64, len: usize, limit: u64) -> (out: Result<
        Vec<u8>,
        FsError,
    >)
        requires
            self.wf(),
        ensures
            out matches Ok(data) ==> read_result(
                self.plain(ino, key@),
                offset as int,
                len as int,
                limit as int,
            ) == Ok::<Seq<u8>, FsError>(data@),
            out matches Err(e) ==> read_result(
                self.plain(ino, key@),
                offset as int,
                len as int,
                limit as int,
            ) == Err::<Seq<u8>, FsError>(e),
    {
        let ghost plain = self.plain(ino, key@);
        let end: u64 = if len as u64 <= limit && offset <= limit - len as u64 {
            offset + len as u64
        } else {
            limit
        };
        assert(end == read_end(offset as int, len as int, limit as int));
        let mut out: Vec<u8> = Vec::new();
        if offset >= end {
            return Ok(out);
        }
        let total = self.len();
        if end > total {
            return Err(FsError::Corrupted);
        }
        let cs = self.chunk_size as u64;
        let mut pos: u64 = offset;
        while pos < end
            invariant
                self.wf(),
                plain == self.plain(ino, key@),
                cs == self.chunk_size,
                offset <= pos <= end <= self.plain_len(),
                end == read_end(offset as int, len as int, limit as int),
                out@.len() == pos - offset,
                forall|i: int| 0 <= i < pos - offset ==> plain[offset + i] == Some(#[trigger] out@[i]),
            decreases end - pos,
        {
            proof {
                self.lemma_in_chunk(pos as int);
            }
            let index = (pos / cs) as usize;
            let within = (pos % cs) as usize;
            let chunk = match self.open_chunk(ino, key, index) {
                Some(chunk) => chunk,
                None => {
                    assert(plain[pos as int] == self.byte_at(ino, key@, pos as int));
                    assert(plain[pos as int] is None);
                    assert(!readable(plain, offset as int, end as int));
                    return Err(FsError::Corrupted);
                },
            };
            let room = (chunk.len() - within) as u64;
            let take = if end - pos < room {
                (end - pos) as usize
            } else {
                room as usize
            };
            let ghost before = out@;
            let mut k: usize = 0;
            while k < take
                invariant
                    k <= take,
                    within + take <= chunk@.len() <= usize::MAX,
                    out@.len() == before.len() + k,
                    forall|i: int| 0 <= i < before.len() ==> out@[i] == before[i],
                    forall|i: int|
                        before.len() <= i < before.len() + k ==> #[trigger] out@[i] == chunk@[within
                            + i - before.len()],
                decreases take - k,
            {
                out.push(chunk[within + k]);
                k += 1;
            }
            proof {
                assert forall|i: int| 0 <= i < pos + take - offset implies plain[offset + i]
                    == Some(#[trigger] out@[i]) by {
                    if i >= pos - offset {
                        let j = i - (pos - offset);
                        let p = pos + j;
                        lemma_position(cs as int, index as int, within + j);
                        assert(p == index * cs + (within + j));
                        assert(out@[i] == chunk@[within + j]);
                        assert(plain[p] == self.byte_at(ino, key@, p));
                    } else {
                        assert(out@[i] == before[i]);
                    }
                }
            }
            pos = pos + take as u64;
        }
        proof {
            let want = Seq::new((end - offset) as nat, |i: int| plain[offset + i].unwrap());
            assert(out@ =~= want);
            assert(readable(plain, offset as int, end as int)) by {
                assert forall|p: int| offset <= p < end implies (#[trigger] plain[p]) is Some by {
                    assert(plain[offset + (p - offset)] == Some(out@[p - offset]));
                }
            }
        }
        Ok(out)
    }

    /// The nonce for sealing chunk `index` at the file's present generation.
    fn nonce_for(&self, ino: u64, index: u64) -> (out: Vec<u8>)
        requires
            self.nonce_base@.len() == NONCE_LEN,
        ensures
            out@ == chunk_nonce(self.nonce_base@, ino, index, self.generation),
            out@.len() == NONCE_LEN,
    {
        let mut mix = u64_to_le_bytes(index ^ ino);
        let tail = u32_to_le_bytes(self.generation);
        append(&mut mix, tail.as_slice());
        let mut out: Vec<u8> = Vec::new();
        let mut i: usize = 0;
        while i < NONCE_LEN
            invariant
                i <= NONCE_LEN,
                self.nonce_base@.len() == NONCE_LEN,
                mix@ == nonce_mix(ino, index, self.generation),
                mix@.len() == NONCE_LEN,
                out@.len() == i,
                forall|j: int| 0 <= j < i ==> #[trigger] out@[j] == self.nonce_base@[j] ^ mix@[j],
            decreases NONCE_LEN - i,
        {
            out.push(self.nonce_base[i] ^ mix[i]);
            i += 1;
        }
        assert(out@ =~= chunk_nonce(self.nonce_base@, ino, index, self.generation));
        out
    }

    /// Seals `plaintext` as chunk `index`.
    fn seal_chunk(&self, ino: u64, key: &[u8], index: usize, plaintext: &[u8]) -> (out: Vec<u8>)
        requires
            self.nonce_base@.len() == NONCE_LEN,
            key@.len() == KEY_LEN,
            plaintext@.len() <= MAX_CHUNK_SIZE,
        ensures
            out@.len() == plaintext@.len() + RECORD_OVERHEAD,
            out@.subrange(0, NONCE_LEN as int) == chunk_nonce(
                self.nonce_base@,
                ino,
                index as u64,
                self.generation,
            ),
            record_plain(self.cipher, key@, chunk_aad(ino, index as u64), out@) == Some(
                plaintext@,
            ),
    {
        let nonce = self.nonce_for(ino, index as u64);
        let aad = Self::aad(ino, index as u64);
        let out = seal_record_with(
            self.cipher,
            key,
            nonce.as_slice(),
            aad.as_slice(),
            plaintext,
        );
        assert(out@.subrange(0, NONCE_LEN as int) == nonce@);
        out
    }

    /// The plaintext length after a write of `len` bytes at `offset`.
    pub open spec fn len_after(&self, offset: int, len: int) -> int {
        if self.plain_len() >= offset + len {
            self.plain_len()
        } else {
            offset + len
        }
    }

    /// Where chunk `index` ends after a write of `len` bytes at `offset`.
    pub open spec fn chunk_stop(&self, offset: int, len: int, index: int) -> int {
        if (index + 1) * self.chunk_size <= self.len_after(offset, len) {
            (index + 1) * self.chunk_size
        } else {
            self.len_after(offset, len)
        }
    }

    /// The plaintext of chunk `index` after a write of `data` at `offset`.
    pub open spec fn chunk_after(
        &self,
        ino: u64,
        key: Seq<u8>,
        offset: int,
        data: Seq<u8>,
        index: int,
    ) -> Seq<u8> {
        Seq::new(
            (self.chunk_stop(offset, data.len() as int, index) - index * self.chunk_size) as nat,
            |j: int|
                written_byte(
                    self.plain(ino, key),
                    offset,
                    data,
                    index * self.chunk_size + j,
                ).unwrap(),
        )
    }

    /// Puts together the plaintext of chunk `index` as a write of `data` at
    /// `offset` leaves it; `None` where the chunk is there and does not
    /// authenticate.
    fn compose_chunk(&self, ino: u64, key: &[u8], offset: u64, data: &[u8], index: usize) -> (out:
        Option<Vec<u8>>)
        requires
            self.wf(),
            offset + data@.len() <= self.chunk_size * MAX_CHUNKS,
            index * self.chunk_size < self.len_after(offset as int, data@.len() as int),
            index < MAX_CHUNKS,
        ensures
            out matches Some(c) ==> {
                &&& c@ == self.chunk_after(ino, key@, offset as int, data@, index as int)
                &&& 0 < c@.len() <= self.chunk_size
                &&& index < self.chunks@.len() ==> self.chunk_plain(ino, key@, index as int)
                    is Some
            },
            out is None ==> index < self.chunks@.len() && self.chunk_plain(
                ino,
                key@,
                index as int,
            ) is None,
    {
        let ghost plain = self.plain(ino, key@);
        let ghost csi = self.chunk_size as int;
        let cs = self.chunk_size as u64;
        let n = self.chunks.len();
        let total = self.len();
        proof {
            self.lemma_plain_len_bound();
            assert(index * csi <= MAX_CHUNKS * MAX_CHUNK_SIZE) by (nonlinear_arith)
                requires
                    0 <= index < MAX_CHUNKS,
                    0 <= csi <= MAX_CHUNK_SIZE,
            ;
            assert((index + 1) * csi == index * csi + csi) by (nonlinear_arith);
        }
        let end = offset + data.len() as u64;
        let new_len = if total >= end {
            total
        } else {
            end
        };
        let base = index as u64 * cs;
        let stop = if base + cs <= new_len {
            base + cs
        } else {
            new_len
        };
        assert(stop == self.chunk_stop(offset as int, data@.len() as int, index as int));
        let old_chunk: Vec<u8> = if index < n {
            match self.open_chunk(ino, key, index) {
                Some(c) => c,
                None => { return None; },
            }
        } else {
            Vec::new()
        };
        proof {
            // What was in this chunk before is what the old plaintext holds there.
            if index < n {
                assert((n - 1) * csi + csi == n * csi) by (nonlinear_arith);
                if index < n - 1 {
                    assert(self.chunks@[index as int]@.len() == csi + RECORD_OVERHEAD);
                    assert((index + 1) * csi <= (n - 1) * csi) by (nonlinear_arith)
                        requires
                            index + 1 <= n - 1,
                            csi >= 0,
                    ;
                }
                assert forall|k: int| 0 <= k < old_chunk@.len() implies plain[base + k] == Some(
                    #[trigger] old_chunk@[k],
                ) by {
                    lemma_position(csi, index as int, k);
                    assert(plain[base + k] == self.byte_at(ino, key@, base + k));
                }
            } else {
                assert(n * csi <= index * csi) by (nonlinear_arith)
                    requires
                        n <= index,
                        csi >= 0,
                ;
            }
        }
        let size = (stop - base) as usize;
        let mut out: Vec<u8> = Vec::new();
        let mut j: usize = 0;
        while j < size
            invariant
                j <= size,
                size == stop - base,
                size <= cs,
                base + size <= u64::MAX,
                end == offset + data@.len(),
                out@.len() == j,
                old_chunk@.len() == 0 && base >= total || base + old_chunk@.len() == total
                    || old_chunk@.len() == cs && base + cs <= total,
                forall|k: int|
                    0 <= k < old_chunk@.len() ==> plain[base + k] == Some(
                        #[trigger] old_chunk@[k],
                    ),
                plain.len() == total,
                forall|k: int|
                    0 <= k < j ==> Some(#[trigger] out@[k]) == written_byte(
                        plain,
                        offset as int,
                        data@,
                        base + k,
                    ),
            decreases size - j,
        {
            let p = base + j as u64;
            let byte = if offset <= p && p < end {
                data[(p - offset) as usize]
            } else if j < old_chunk.len() {
                old_chunk[j]
            } else {
                0u8
            };
            out.push(byte);
            j += 1;
        }
        proof {
            let want = self.chunk_after(ino, key@, offset as int, data@, index as int);
            assert(out@.len() == want.len());
            assert forall|k: int| 0 <= k < out@.len() implies out@[k] == want[k] by {
                assert(Some(out@[k]) == written_byte(plain, offset as int, data@, base + k));
            }
            assert(out@ =~= want);
        }
        Some(out)
    }

    /// Whether `record` is chunk `index` sealed anew as a write of `data` at
    /// `offset` leaves it, under the nonce of the file's generation.
    pub open spec fn sealed_chunk(
        &self,
        record: Seq<u8>,
        ino: u64,
        key: Seq<u8>,
        offset: int,
        data: Seq<u8>,
        index: int,
    ) -> bool {
        &&& record.len() == self.chunk_after(ino, key, offset, data, index).len()
            + RECORD_OVERHEAD
        &&& record_plain(self.cipher, key, chunk_aad(ino, index as u64), record) == Some(
            self.chunk_after(ino, key, offset, data, index),
        )
        &&& index < self.chunks@.len() ==> self.chunk_plain(ino, key, index) is Some
        &&& record.subrange(0, NONCE_LEN as int) == chunk_nonce(
            self.nonce_base@,
            ino,
            index as u64,
            self.generation,
        )
    }

    /// Whether `after` is this file with the chunks from `first` to `last`
    /// sealed anew as a write of `data` at `offset` leaves them.
    pub open spec fn spliced(
        &self,
        after: &ContentFile,
        ino: u64,
        key: Seq<u8>,
        offset: int,
        data: Seq<u8>,
        first: int,
        last: int,
    ) -> bool {
        &&& after.nonce_base == self.nonce_base
        &&& after.seal == self.seal
        &&& after.chunk_size == self.chunk_size
        &&& after.cipher == self.cipher
        &&& after.chunks@.len() == if self.chunks@.len() > last + 1 {
            self.chunks@.len() as int
        } else {
            last + 1
        }
        &&& forall|i: int|
            0 <= i < after.chunks@.len() && (i < first || i > last) ==> #[trigger] after.chunks@[i]
                == self.chunks@[i]
        &&& forall|i: int|
            first <= i <= last ==> self.sealed_chunk(
                (#[trigger] after.chunks@[i])@,
                ino,
                key,
                offset,
                data,
                i,
            )
    }

    /// The chunks that a write touches, from the first to the last.
    proof fn lemma_span(&self, offset: int, len: int)
        requires
            self.wf(),
            0 <= offset,
            0 <= len,
            offset + len <= self.chunk_size * MAX_CHUNKS,
            offset < offset + len || self.plain_len() < offset,
        ensures
            ({
                let cs = self.chunk_size as int;
                let start = if offset <= self.plain_len() {
                    offset
                } else {
                    self.plain_len()
                };
                let first = start / cs;
                let last = (offset + len - 1) / cs;
                &&& 0 <= first <= last < MAX_CHUNKS
                &&& first <= self.chunks@.len()
                &&& first * cs <= start < (first + 1) * cs
                &&& last * cs <= offset + len - 1 < (last + 1) * cs
                &&& first == self.chunks@.len() ==> self.plain_len() == first * cs
                &&& self.chunks@.len() <= last + 1 ==> self.plain_len() <= (last + 1) * cs
                &&& self.chunks@.len() > last + 1 ==> offset + len <= (last + 1) * cs
                    < self.plain_len()
            }),
    {
        let cs = self.chunk_size as int;
        let n = self.chunks@.len() as int;
        let l = self.plain_len();
        let end = offset + len;
        let start = if offset <= l {
            offset
        } else {
            l
        };
        let first = start / cs;
        let last = (end - 1) / cs;
        self.lemma_plain_len_bound();
        lemma_div_range(start, cs);
        lemma_div_range(end - 1, cs);
        lemma_div_below(end - 1, MAX_CHUNKS as int, cs);
        if first > last {
            lemma_mul_mono(last + 1, first, cs);
        }
        if first > n {
            lemma_mul_mono(n + 1, first, cs);
            assert((n + 1) * cs == n * cs + cs) by (nonlinear_arith);
        }
        if first == n && n > 0 {
            assert((n - 1) * cs + cs == n * cs) by (nonlinear_arith);
        }
        if n <= last + 1 {
            lemma_mul_mono(n, last + 1, cs);
        } else {
            lemma_mul_mono(last + 1, n - 1, cs);
        }
    }

    /// A file with chunks sealed anew holds what the write leaves.
    proof fn lemma_spliced(
        &self,
        after: &ContentFile,
        ino: u64,
        key: Seq<u8>,
        offset: int,
        data: Seq<u8>,
    )
        requires
            self.wf(),
            0 <= offset,
            offset + data.len() <= self.chunk_size * MAX_CHUNKS,
            offset < offset + data.len() || self.plain_len() < offset,
            self.spliced(
                after,
                ino,
                key,
                offset,
                data,
                (if offset <= self.plain_len() {
                    offset
                } else {
                    self.plain_len()
                }) / (self.chunk_size as int),
                (offset + data.len() - 1) / (self.chunk_size as int),
            ),
        ensures
            after.wf(),
            after.plain_len() == self.len_after(offset, data.len() as int),
            after.plain(ino, key) == written(self.plain(ino, key), offset, data),
            writable(self.plain(ino, key), self.chunk_size as int, offset, data.len() as int),
            forall|i: int|
                resealed(self.chunk_size as int, self.plain_len(), offset, data.len() as int, i)
                    ==> (#[trigger] after.chunks@[i])@.subrange(0, NONCE_LEN as int)
                    == chunk_nonce(self.nonce_base@, ino, i as u64, self.generation),
    {
        let cs = self.chunk_size as int;
        let n = self.chunks@.len() as int;
        let l = self.plain_len();
        let len = data.len() as int;
        let end = offset + len;
        let start = if offset <= l {
            offset
        } else {
            l
        };
        let first = start / cs;
        let last = (end - 1) / cs;
        let new_len = self.len_after(offset, len);
        let plain = self.plain(ino, key);
        let m = after.chunks@.len() as int;
        self.lemma_span(offset, len);
        self.lemma_plain_len_bound();
        // The lengths of the chunks that were sealed anew.
        assert forall|i: int| first <= i <= last implies {
            &&& i * cs < self.chunk_stop(offset, len, i) <= (i + 1) * cs
            &&& i < last ==> self.chunk_stop(offset, len, i) == (i + 1) * cs
        } by {
            lemma_mul_mono(i, last, cs);
            assert((i + 1) * cs == i * cs + cs) by (nonlinear_arith);
            if i < last {
                lemma_mul_mono(i + 1, last, cs);
            }
        }
        assert(self.chunk_stop(offset, len, last) == if n > last + 1 {
            (last + 1) * cs
        } else {
            new_len
        });
        assert(after.wf()) by {
            assert forall|i: int| 0 <= i < m - 1 implies (#[trigger] after.chunks@[i])@.len() == cs
                + RECORD_OVERHEAD by {
                if i < first || i > last {
                    assert(after.chunks@[i] == self.chunks@[i]);
                    if i == n - 1 {
                        assert((n - 1) * cs + cs == n * cs) by (nonlinear_arith);
                    }
                } else {
                    assert((i + 1) * cs == i * cs + cs) by (nonlinear_arith);
                }
            }
            if m - 1 > last {
                assert(after.chunks@[m - 1] == self.chunks@[m - 1]);
            } else {
                assert((last + 1) * cs == last * cs + cs) by (nonlinear_arith);
            }
        }
        assert(after.plain_len() == new_len) by {
            if m - 1 > last {
                assert(after.chunks@[m - 1] == self.chunks@[m - 1]);
            }
        }
        assert forall|p: int| 0 <= p < new_len implies after.byte_at(ino, key, p) == written_byte(
            plain,
            offset,
            data,
            p,
        ) by {
            after.lemma_in_chunk(p);
            let i = p / cs;
            let j = p % cs;
            if i < first {
                lemma_mul_mono(i + 1, first, cs);
                assert((i + 1) * cs == i * cs + cs) by (nonlinear_arith);
                assert(after.chunks@[i] == self.chunks@[i]);
                assert(plain[p] == self.byte_at(ino, key, p));
            } else if i > last {
                lemma_mul_mono(last + 1, i, cs);
                assert(after.chunks@[i] == self.chunks@[i]);
                assert(plain[p] == self.byte_at(ino, key, p));
            } else {
                let c = self.chunk_after(ino, key, offset, data, i);
                assert(after.chunk_plain(ino, key, i) == Some(c));
                assert(c[j] == written_byte(plain, offset, data, i * cs + j).unwrap());
                if !(offset <= p < end) && p < l {
                    self.lemma_in_chunk(p);
                    assert(plain[p] == self.byte_at(ino, key, p));
                }
            }
        }
        assert(after.plain(ino, key) =~= written(plain, offset, data));
        assert forall|p: int| touched(cs, plain.len() as int, offset, len, p) implies (
        #[trigger] plain[p]) is Some by {
            self.lemma_in_chunk(p);
            let i = p / cs;
            if i < first {
                lemma_mul_mono(i + 1, first, cs);
                assert((i + 1) * cs == i * cs + cs) by (nonlinear_arith);
            }
            if i > last {
                lemma_mul_mono(last + 1, i, cs);
            }
            assert(first <= i <= last);
            assert(self.sealed_chunk(after.chunks@[i]@, ino, key, offset, data, i));
            assert(plain[p] == self.byte_at(ino, key, p));
        }
        assert forall|i: int|
            resealed(cs, l, offset, len, i) implies (#[trigger] after.chunks@[i])@.subrange(
            0,
            NONCE_LEN as int,
        ) == chunk_nonce(self.nonce_base@, ino, i as u64, self.generation) by {
            assert(self.sealed_chunk(after.chunks@[i]@, ino, key, offset, data, i));
        }
    }

    /// A chunk that a write touches and that does not authenticate stands
    /// in the way of the write.
    proof fn lemma_unwritable(&self, ino: u64, key: Seq<u8>, offset: int, len: int, index: int)
        requires
            self.wf(),
            0 <= offset,
            0 <= len,
            offset + len <= self.chunk_size * MAX_CHUNKS,
            offset < offset + len || self.plain_len() < offset,
            (if offset <= self.plain_len() {
                offset
            } else {
                self.plain_len()
            }) / (self.chunk_size as int) <= index <= (offset + len - 1) / (self.chunk_size as int),
            index < self.chunks@.len(),
            self.chunk_plain(ino, key, index) is None,
        ensures
            !writable(self.plain(ino, key), self.chunk_size as int, offset, len),
    {
        let cs = self.chunk_size as int;
        let n = self.chunks@.len() as int;
        let l = self.plain_len();
        let start = if offset <= l {
            offset
        } else {
            l
        };
        let first = start / cs;
        let last = (offset + len - 1) / cs;
        let plain = self.plain(ino, key);
        self.lemma_span(offset, len);
        let p = index * cs;
        lemma_mul_mono(first, index, cs);
        lemma_mul_mono(index, n - 1, cs);
        lemma_mul_mono(index + 1, last + 1, cs);
        assert((index + 1) * cs == index * cs + cs) by (nonlinear_arith);
        lemma_position(cs, index, 0);
        assert(touched(cs, plain.len() as int, offset, len, p));
        assert(plain[p] == self.byte_at(ino, key, p));
        assert(plain[p] is None);
    }

    /// Seals anew the chunks from `first` to `last` as a write of `data` at
    /// `offset` leaves them; `None` where one of them does not authenticate.
    fn seal_span(
        &self,
        ino: u64,
        key: &[u8],
        offset: u64,
        data: &[u8],
        first: usize,
        last: usize,
    ) -> (out: Option<Vec<Vec<u8>>>)
        requires
            self.wf(),
            key@.len() == KEY_LEN,
            offset + data@.len() <= self.chunk_size * MAX_CHUNKS,
            offset < offset + data@.len() || self.plain_len() < offset,
            first == (if offset <= self.plain_len() {
                offset as int
            } else {
                self.plain_len()
            }) / (self.chunk_size as int),
            last == (offset + data@.len() - 1) / (self.chunk_size as int),
        ensures
            out matches Some(fresh) ==> fresh@.len() == last - first + 1 && forall|k: int|
                0 <= k < fresh@.len() ==> self.sealed_chunk(
                    (#[trigger] fresh@[k])@,
                    ino,
                    key@,
                    offset as int,
                    data@,
                    first + k,
                ),
            out is None ==> !writable(
                self.plain(ino, key@),
                self.chunk_size as int,
                offset as int,
                data@.len() as int,
            ),
    {
        proof {
            self.lemma_span(offset as int, data@.len() as int);
        }
        let ghost cs = self.chunk_size as int;
        let mut fresh: Vec<Vec<u8>> = Vec::new();
        let mut index = first;
        while index <= last
            invariant
                self.wf(),
                key@.len() == KEY_LEN,
                cs == self.chunk_size,
                offset + data@.len() <= cs * MAX_CHUNKS,
                offset < offset + data@.len() || self.plain_len() < offset,
                first == (if offset <= self.plain_len() {
                    offset as int
                } else {
                    self.plain_len()
                }) / cs,
                last == (offset + data@.len() - 1) / cs,
                first <= index <= last + 1,
                last < MAX_CHUNKS,
                last * cs <= offset + data@.len() - 1,
                fresh@.len() == index - first,
                forall|k: int|
                    0 <= k < fresh@.len() ==> self.sealed_chunk(
                        (#[trigger] fresh@[k])@,
                        ino,
                        key@,
                        offset as int,
                        data@,
                        first + k,
                    ),
            decreases last + 1 - index,
        {
            proof {
                lemma_mul_mono(index as int, last as int, cs);
            }
            let plaintext = match self.compose_chunk(ino, key, offset, data, index) {
                Some(plaintext) => plaintext,
                None => {
                    proof {
                        self.lemma_unwritable(
                            ino,
                            key@,
                            offset as int,
                            data@.len() as int,
                            index as int,
                        );
                    }
                    return None;
                },
            };
            let record = self.seal_chunk(ino, key, index, plaintext.as_slice());
            fresh.push(record);
            index += 1;
        }
        Some(fresh)
    }

    /// Writes `data` at `offset`, or, with no data, grows the file with
    /// zeros up to `offset`.
    fn splice(&mut self, ino: u64, key: &[u8], offset: u64, data: &[u8]) -> (out: Result<
        (),
        FsError,
    >)
        requires
            old(self).wf(),
            key@.len() == KEY_LEN,
        ensures
            out is Ok ==> {
                &&& offset + data@.len() <= old(self).chunk_size * MAX_CHUNKS
                &&& writable(
                    old(self).plain(ino, key@),
                    old(self).chunk_size as int,
                    offset as int,
                    data@.len() as int,
                )
                &&& final(self).wf()
                &&& final(self).nonce_base == old(self).nonce_base
                &&& final(self).chunk_size == old(self).chunk_size
                &&& final(self).cipher == old(self).cipher
                &&& final(self).plain(ino, key@) == written(
                    old(self).plain(ino, key@),
                    offset as int,
                    data@,
                )
                &&& final(self).generation == old(self).generation
                &&& forall|i: int|
                    resealed(
                        old(self).chunk_size as int,
                        old(self).plain_len(),
                        offset as int,
                        data@.len() as int,
                        i,
                    ) ==> (#[trigger] final(self).chunks@[i])@.subrange(0, NONCE_LEN as int)
                        == chunk_nonce(old(self).nonce_base@, ino, i as u64, old(self).generation)
            },
            out matches Err(e) ==> {
                &&& *final(self) == *old(self)
                &&& if offset + data@.len() > old(self).chunk_size * MAX_CHUNKS {
                    e == FsError::InvalidInput
                } else {
                    e == FsError::Corrupted && !writable(
                        old(self).plain(ino, key@),
                        old(self).chunk_size as int,
                        offset as int,
                        data@.len() as int,
                    )
                }
            },
    {
        let ghost o = *self;
        let ghost plain = self.plain(ino, key@);
        let cs = self.chunk_size as u64;
        proof {
            self.lemma_plain_len_bound();
            assert(cs * MAX_CHUNKS <= MAX_CHUNK_SIZE * MAX_CHUNKS) by (nonlinear_arith)
                requires
                    0 <= cs <= MAX_CHUNK_SIZE,
            ;
        }
        let max_len = cs * MAX_CHUNKS as u64;
        if data.len() as u64 > max_len || offset > max_len - data.len() as u64 {
            return Err(FsError::InvalidInput);
        }
        let end = offset + data.len() as u64;
        let total = self.len();
        let start = if offset <= total {
            offset
        } else {
            total
        };
        if start >= end {
            assert(plain =~= written(plain, offset as int, data@));
            return Ok(());
        }
        proof {
            self.lemma_span(offset as int, data@.len() as int);
        }
        let first = (start / cs) as usize;
        let last = ((end - 1) / cs) as usize;
        let n = self.chunks.len();
        let mut fresh = match self.seal_span(ino, key, offset, data, first, last) {
            Some(fresh) => fresh,
            None => { return Err(FsError::Corrupted); },
        };
        let cut = if last + 1 < n {
            last + 1
        } else {
            n
        };
        let ghost sealed = fresh@;
        let mut tail = self.chunks.split_off(cut);
        self.chunks.truncate(first);
        self.chunks.append(&mut fresh);
        self.chunks.append(&mut tail);
        proof {
            let after = *self;
            assert(after.chunks@ =~= o.chunks@.subrange(0, first as int) + sealed
                + o.chunks@.subrange(cut as int, n as int));
            assert forall|i: int| first <= i <= last implies o.sealed_chunk(
                (#[trigger] after.chunks@[i])@,
                ino,
                key@,
                offset as int,
                data@,
                i,
            ) by {
                assert(after.chunks@[i] == sealed[i - first]);
            }
            assert(o.spliced(
                &after,
                ino,
                key@,
                offset as int,
                data@,
                first as int,
                last as int,
            ));
            o.lemma_spliced(&after, ino, key@, offset as int, data@);
        }
        Ok(())
    }

    /// Writes `data` at `offset` into the chunks. A write behind the end
    /// fills the gap with zeros. On an error the file is as it was.
    fn write_body(&mut self, ino: u64, key: &[u8], offset: u64, data: &[u8]) -> (out: Result<
        (),
        FsError,
    >)
        requires
            old(self).wf(),
            key@.len() == KEY_LEN,
        ensures
            final(self).wf(),
            final(self).nonce_base == old(self).nonce_base,
            final(self).chunk_size == old(self).chunk_size,
            final(self).cipher == old(self).cipher,
            out is Ok ==> write_result(
                old(self).plain(ino, key@),
                old(self).chunk_size as int,
                offset as int,
                data@,
            ) == Ok::<Seq<Option<u8>>, FsError>(final(self).plain(ino, key@)),
            out matches Err(e) ==> *final(self) == *old(self) && write_result(
                old(self).plain(ino, key@),
                old(self).chunk_size as int,
                offset as int,
                data@,
            ) == Err::<Seq<Option<u8>>, FsError>(e),
            final(self).generation == old(self).generation,
            out is Ok && data@.len() > 0 ==> forall|i: int|
                resealed(
                    old(self).chunk_size as int,
                    old(self).plain_len(),
                    offset as int,
                    data@.len() as int,
                    i,
                ) ==> (#[trigger] final(self).chunks@[i])@.subrange(0, NONCE_LEN as int)
                    == chunk_nonce(old(self).nonce_base@, ino, i as u64, old(self).generation),
    {
        if data.len() == 0 {
            return Ok(());
        }
        self.splice(ino, key, offset, data)
    }

    /// A file cut behind chunk `q`, which keeps its first `keep` bytes, holds
    /// the old content up to the new size.
    proof fn lemma_shrunk(&self, after: &ContentFile, ino: u64, key: Seq<u8>, size: int)
        requires
            self.wf(),
            0 < size < self.plain_len(),
            after.nonce_base == self.nonce_base,
            after.seal == self.seal,
            after.chunk_size == self.chunk_size,
            after.cipher == self.cipher,
            after.chunks@.len() == (size - 1) / (self.chunk_size as int) + 1,
            forall|i: int|
                0 <= i < after.chunks@.len() - 1 ==> #[trigger] after.chunks@[i] == self.chunks@[i],
            after.chunks@.last()@.len() == size - (after.chunks@.len() - 1) * self.chunk_size
                + RECORD_OVERHEAD,
            after.chunk_plain(ino, key, after.chunks@.len() - 1) == match self.chunk_plain(
                ino,
                key,
                after.chunks@.len() - 1,
            ) {
                Some(c) => Some(
                    c.subrange(0, size - (after.chunks@.len() - 1) * self.chunk_size),
                ),
                None => None,
            },
        ensures
            after.wf(),
            after.plain(ino, key) == resized(self.plain(ino, key), size),
    {
        let cs = self.chunk_size as int;
        let n = self.chunks@.len() as int;
        let q = (size - 1) / cs;
        let keep = size - q * cs;
        self.lemma_in_chunk(size - 1);
        assert forall|i: int| 0 <= i < q implies (#[trigger] after.chunks@[i])@.len() == cs
            + RECORD_OVERHEAD by {
            assert(after.chunks@[i] == self.chunks@[i]);
        }
        assert(after.wf());
        assert(after.plain_len() == size);
        let plain = self.plain(ino, key);
        assert forall|p: int| 0 <= p < size implies after.byte_at(ino, key, p) == plain[p] by {
            after.lemma_in_chunk(p);
            self.lemma_in_chunk(p);
            let i = p / cs;
            assert(plain[p] == self.byte_at(ino, key, p));
            if i < q {
                assert(after.chunks@[i] == self.chunks@[i]);
            }
        }
        assert(after.plain(ino, key) =~= resized(plain, size));
    }

    /// Cuts or grows the chunks to `size` bytes. Growing fills with zeros.
    /// On an error the file is as it was.
    fn resize_body(&mut self, ino: u64, key: &[u8], size: u64) -> (out: Result<(), FsError>)
        requires
            old(self).wf(),
            key@.len() == KEY_LEN,
        ensures
            final(self).wf(),
            final(self).generation == old(self).generation,
            out is Ok ==> forall|i: int|
                reshaped(old(self).chunk_size as int, old(self).plain_len(), size as int, i) ==> (
                #[trigger] final(self).chunks@[i])@.subrange(0, NONCE_LEN as int) == chunk_nonce(
                    old(self).nonce_base@,
                    ino,
                    i as u64,
                    old(self).generation,
                ),
            final(self).nonce_base == old(self).nonce_base,
            final(self).chunk_size == old(self).chunk_size,
            final(self).cipher == old(self).cipher,
            out is Ok ==> resize_result(
                old(self).plain(ino, key@),
                old(self).chunk_size as int,
                size as int,
            ) == Ok::<Seq<Option<u8>>, FsError>(final(self).plain(ino, key@)),
            out matches Err(e) ==> *final(self) == *old(self) && resize_result(
                old(self).plain(ino, key@),
                old(self).chunk_size as int,
                size as int,
            ) == Err::<Seq<Option<u8>>, FsError>(e),
    {
        let ghost o = *self;
        let ghost plain = self.plain(ino, key@);
        let cs = self.chunk_size as u64;
        let total = self.len();
        proof {
            self.lemma_plain_len_bound();
            lemma_mul_mono(self.chunks@.len() as int, MAX_CHUNKS as int, cs as int);
        }
        if size > total {
            let nothing: Vec<u8> = Vec::new();
            let out = self.splice(ino, key, size, nothing.as_slice());
            proof {
                if out is Ok {
                    assert(written(plain, size as int, nothing@) =~= resized(plain, size as int));
                }
            }
            return out;
        }
        if size == total {
            assert(plain =~= resized(plain, size as int));
            return Ok(());
        }
        if size == 0 {
            self.chunks.truncate(0);
            assert(self.plain(ino, key@) =~= resized(plain, 0));
            return Ok(());
        }
        proof {
            self.lemma_in_chunk(size - 1);
            lemma_div_range(size - 1, cs as int);
        }
        let q = ((size - 1) / cs) as usize;
        let keep = (size - q as u64 * cs) as usize;
        proof {
            assert((q + 1) * cs == q * cs + cs) by (nonlinear_arith);
            if keep < cs {
                lemma_fundamental_div_mod_converse(size as int, cs as int, q as int, keep as int);
            } else {
                lemma_fundamental_div_mod_converse(size as int, cs as int, q + 1, 0);
            }
            assert(plain[size - 1] == self.byte_at(ino, key@, size - 1));
        }
        if keep as u64 == cs {
            proof {
                if q == self.chunks@.len() - 1 {
                    assert(false);
                }
                assert(self.chunks@[q as int]@.len() == cs + RECORD_OVERHEAD);
            }
            self.chunks.truncate(q + 1);
            proof {
                let after = *self;
                assert(after.chunks@[q as int] == o.chunks@[q as int]);
                match o.chunk_plain(ino, key@, q as int) {
                    Some(c) => {
                        assert(c.subrange(0, keep as int) =~= c);
                    },
                    None => {},
                }
                o.lemma_shrunk(&after, ino, key@, size as int);
            }
            return Ok(());
        }
        let chunk = match self.open_chunk(ino, key, q) {
            Some(chunk) => chunk,
            None => { return Err(FsError::Corrupted); },
        };
        let prefix = copy_range(chunk.as_slice(), 0, keep);
        let record = self.seal_chunk(ino, key, q, prefix.as_slice());
        self.chunks.truncate(q);
        self.chunks.push(record);
        proof {
            let after = *self;
            assert(after.chunks@[q as int] == record);
            o.lemma_shrunk(&after, ino, key@, size as int);
        }
        Ok(())
    }
}

/// Length of the header of a content file on disk: the nonce base, the
/// chunk size, the cipher, the generation, and the seal over them.
pub const HEADER_LEN: usize = 49;

/// The number that stands for a cipher in the header.
pub open spec fn cipher_code(cipher: Cipher) -> u8 {
    match cipher {
        Cipher::ChaCha20 => 0,
        Cipher::Aes256Gcm => 1,
    }
}

/// The fields of the header as they stand on disk.
pub open spec fn header_fields(f: ContentFile) -> Seq<u8> {
    f.nonce_base@ + spec_u32_to_le_bytes(f.chunk_size) + seq![cipher_code(f.cipher)]
        + spec_u32_to_le_bytes(f.generation)
}

/// What the seal of a header is bound to: the inode, and the fields.
pub open spec fn header_aad(ino: u64, f: ContentFile) -> Seq<u8> {
    spec_u64_to_le_bytes(ino) + header_fields(f)
}

/// The header of a content file on disk: the fields, then their seal.
pub open spec fn header_bytes(f: ContentFile) -> Seq<u8> {
    header_fields(f) + f.seal@
}

/// Whether cutting or growing a file of `old_len` bytes to `size` bytes
/// seals chunk `index` anew: growing seals what a write of nothing at the
/// new end would, and cutting seals the chunk that the new end cuts through.
pub open spec fn reshaped(cs: int, old_len: int, size: int, index: int) -> bool {
    if size > old_len {
        resealed(cs, old_len, size, 0, index)
    } else {
        size < old_len && size % cs != 0 && index == (size - 1) / cs
    }
}

impl FileView {
    /// What a read gives: `Corrupted` where the header does not
    /// authenticate, else the bytes as far as they are there and authentic.
    pub open spec fn read(self, offset: int, len: int, limit: int) -> Result<Seq<u8>, FsError> {
        if !self.intact {
            Err(FsError::Corrupted)
        } else {
            read_result(self.bytes, offset, len, limit)
        }
    }

    /// What a write makes of the file: `Corrupted` where the header does
    /// not authenticate; `Other` where the generations of the file are used
    /// up, so that a chunk would be sealed under a nonce that was used; else
    /// what the write makes of the bytes, at the next generation.
    pub open spec fn written(self, offset: int, data: Seq<u8>) -> Result<FileView, FsError> {
        if !self.intact {
            Err(FsError::Corrupted)
        } else if self.generation == u32::MAX {
            Err(FsError::Other)
        } else {
            match write_result(self.bytes, self.chunk_size as int, offset, data) {
                Err(e) => Err(e),
                Ok(bytes) => Ok(
                    FileView { bytes, generation: (self.generation + 1) as u32, ..self },
                ),
            }
        }
    }

    /// What cutting or growing makes of the file; the header and the
    /// generations decide as for a write.
    pub open spec fn resized(self, size: int) -> Result<FileView, FsError> {
        if !self.intact {
            Err(FsError::Corrupted)
        } else if self.generation == u32::MAX {
            Err(FsError::Other)
        } else {
            match resize_result(self.bytes, self.chunk_size as int, size) {
                Err(e) => Err(e),
                Ok(bytes) => Ok(
                    FileView { bytes, generation: (self.generation + 1) as u32, ..self },
                ),
            }
        }
    }
}

/// The sealed chunks one after the other.
pub open spec fn body_bytes(chunks: Seq<Vec<u8>>) -> Seq<u8>
    decreases chunks.len(),
{
    if chunks.len() == 0 {
        Seq::empty()
    } else {
        body_bytes(chunks.drop_last()) + chunks.last()@
    }
}

/// A content file as it stands on disk: the header, then the chunks.
pub open spec fn file_bytes(f: ContentFile) -> Seq<u8> {
    header_bytes(f) + body_bytes(f.chunks@)
}

/// Whether bytes have the form of a content file: a whole header with a
/// chunk size and a cipher that exist, then full chunks, and at the end at
/// most one chunk that is not full but holds at least one byte.
pub open spec fn decodable(bytes: Seq<u8>) -> bool {
    &&& bytes.len() >= HEADER_LEN
    &&& ({
        let cs = spec_u32_from_le_bytes(bytes.subrange(12, 16));
        let record = cs + RECORD_OVERHEAD;
        let body = bytes.len() - HEADER_LEN;
        &&& MIN_CHUNK_SIZE <= cs <= MAX_CHUNK_SIZE
        &&& bytes[16] <= 1
        &&& body % record == 0 || body % record > RECORD_OVERHEAD
        &&& body <= MAX_CHUNKS * record
    })
}

/// The chunks of a well-formed file have the length of so many full chunks
/// and the last.
pub proof fn lemma_body_len(f: ContentFile, n: int)
    requires
        f.wf(),
        0 <= n <= f.chunks@.len(),
    ensures
        body_bytes(f.chunks@.subrange(0, n)).len() == if n == 0 {
            0
        } else {
            (n - 1) * (f.chunk_size + RECORD_OVERHEAD) + f.chunks@[n - 1]@.len()
        },
    decreases n,
{
    let part = f.chunks@.subrange(0, n);
    if n > 0 {
        lemma_body_len(f, n - 1);
        assert(part.drop_last() =~= f.chunks@.subrange(0, n - 1));
        assert(part.last() == f.chunks@[n - 1]);
        assert(body_bytes(part) == body_bytes(part.drop_last()) + part.last()@);
        let record = f.chunk_size + RECORD_OVERHEAD;
        if n > 1 {
            assert(f.chunks@[n - 2]@.len() == record);
            assert((n - 2) * record + record == (n - 1) * record) by (nonlinear_arith);
        } else {
            assert((n - 1) * record == 0) by (nonlinear_arith)
                requires
                    n == 1,
            ;
        }
    } else {
        assert(part.len() == 0);
    }
}

/// What a well-formed file stands as on disk has the form of a content file.
pub proof fn lemma_decodable(f: ContentFile)
    requires
        f.wf(),
    ensures
        decodable(file_bytes(f)),
{
    lemma_auto_spec_u32_to_from_le_bytes();
    let bytes = file_bytes(f);
    let n = f.chunks@.len() as int;
    let record = f.chunk_size + RECORD_OVERHEAD;
    lemma_body_len(f, n);
    assert(f.chunks@.subrange(0, n) =~= f.chunks@);
    assert(bytes.subrange(12, 16) =~= spec_u32_to_le_bytes(f.chunk_size));
    assert(bytes[16] == cipher_code(f.cipher));
    let body = bytes.len() - HEADER_LEN;
    if n == 0 {
        assert(body % record == 0);
        assert(0 <= MAX_CHUNKS * record) by (nonlinear_arith)
            requires
                record >= 0,
        ;
    } else {
        let last = f.chunks@[n - 1]@.len() as int;
        assert(body == (n - 1) * record + last);
        if last == record {
            assert(body == n * record) by (nonlinear_arith)
                requires
                    body == (n - 1) * record + last,
                    last == record,
            ;
            lemma_fundamental_div_mod_converse(body, record, n, 0);
        } else {
            lemma_fundamental_div_mod_converse(body, record, n - 1, last);
        }
        assert(body <= MAX_CHUNKS * record) by (nonlinear_arith)
            requires
                body == (n - 1) * record + last,
                last <= record,
                1 <= n <= MAX_CHUNKS,
                record >= 0,
        ;
    }
}

impl ContentFile {
    /// Reads up to `len` bytes at `offset` of a file whose attributes give it
    /// `limit` bytes.
    pub fn read(&self, ino: u64, key: &[u8], offset: u64, len: usize, limit: u64) -> (out: Result<
        Vec<u8>,
        FsError,
    >)
        requires
            self.wf(),
        ensures
            out matches Ok(data) ==> self.view_for(ino, key@).read(
                offset as int,
                len as int,
                limit as int,
            ) == Ok::<Seq<u8>, FsError>(data@),
            out matches Err(e) ==> self.view_for(ino, key@).read(
                offset as int,
                len as int,
                limit as int,
            ) == Err::<Seq<u8>, FsError>(e),
    {
        if !self.check_header(ino, key) {
            return Err(FsError::Corrupted);
        }
        self.read_body(ino, key, offset, len, limit)
    }

    /// Writes `data` at `offset`, and seals the header at the next
    /// generation. A write behind the end fills the gap with zeros. On an
    /// error the file is as it was.
    pub fn write(&mut self, ino: u64, key: &[u8], offset: u64, data: &[u8]) -> (out: Result<
        (),
        FsError,
    >)
        requires
            old(self).wf(),
            key@.len() == KEY_LEN,
        ensures
            final(self).wf(),
            final(self).nonce_base == old(self).nonce_base,
            final(self).chunk_size == old(self).chunk_size,
            final(self).cipher == old(self).cipher,
            out is Ok ==> old(self).view_for(ino, key@).written(offset as int, data@) == Ok::<
                FileView,
                FsError,
            >(final(self).view_for(ino, key@)),
            out matches Err(e) ==> *final(self) == *old(self) && old(self).view_for(
                ino,
                key@,
            ).written(offset as int, data@) == Err::<FileView, FsError>(e),
            out is Ok && data@.len() > 0 ==> forall|i: int|
                resealed(
                    old(self).chunk_size as int,
                    old(self).plain_len(),
                    offset as int,
                    data@.len() as int,
                    i,
                ) ==> (#[trigger] final(self).chunks@[i])@.subrange(0, NONCE_LEN as int)
                    == chunk_nonce(old(self).nonce_base@, ino, i as u64, old(self).generation),
    {
        if !self.check_header(ino, key) {
            return Err(FsError::Corrupted);
        }
        if self.generation == u32::MAX {
            return Err(FsError::Other);
        }
        let next = self.generation + 1;
        match self.write_body(ino, key, offset, data) {
            Ok(()) => {},
            Err(e) => { return Err(e); },
        }
        let ghost bytes = self.plain(ino, key@);
        self.generation = next;
        self.reseal(ino, key);
        assert(self.plain(ino, key@) =~= bytes);
        Ok(())
    }

    /// Cuts or grows the file to `size` bytes, and seals the header at the
    /// next generation. Growing fills with zeros. On an error the file is
    /// as it was.
    pub fn resize(&mut self, ino: u64, key: &[u8], size: u64) -> (out: Result<(), FsError>)
        requires
            old(self).wf(),
            key@.len() == KEY_LEN,
        ensures
            final(self).wf(),
            final(self).nonce_base == old(self).nonce_base,
            final(self).chunk_size == old(self).chunk_size,
            final(self).cipher == old(self).cipher,
            out is Ok ==> old(self).view_for(ino, key@).resized(size as int) == Ok::<
                FileView,
                FsError,
            >(final(self).view_for(ino, key@)),
            out matches Err(e) ==> *final(self) == *old(self) && old(self).view_for(
                ino,
                key@,
            ).resized(size as int) == Err::<FileView, FsError>(e),
            out is Ok ==> forall|i: int|
                reshaped(old(self).chunk_size as int, old(self).plain_len(), size as int, i) ==> (
                #[trigger] final(self).chunks@[i])@.subrange(0, NONCE_LEN as int) == chunk_nonce(
                    old(self).nonce_base@,
                    ino,
                    i as u64,
                    old(self).generation,
                ),
    {
        if !self.check_header(ino, key) {
            return Err(FsError::Corrupted);
        }
        if self.generation == u32::MAX {
            return Err(FsError::Other);
        }
        let next = self.generation + 1;
        match self.resize_body(ino, key, size) {
            Ok(()) => {},
            Err(e) => { return Err(e); },
        }
        let ghost bytes = self.plain(ino, key@);
        self.generation = next;
        self.reseal(ino, key);
        assert(self.plain(ino, key@) =~= bytes);
        Ok(())
    }

    /// Writes the file out as it stands on disk.
    pub fn encode(&self) -> (out: Vec<u8>)
        ensures
            out@ == file_bytes(*self),
    {
        let mut out = self.fields();
        append(&mut out, self.seal.as_slice());
        assert(out@ =~= header_bytes(*self));
        let mut i: usize = 0;
        assert(self.chunks@.subrange(0, 0) =~= Seq::<Vec<u8>>::empty());
        while i < self.chunks.len()
            invariant
                i <= self.chunks@.len(),
                out@ == header_bytes(*self) + body_bytes(self.chunks@.subrange(0, i as int)),
            decreases self.chunks@.len() - i,
        {
            append(&mut out, self.chunks[i].as_slice());
            proof {
                let next = self.chunks@.subrange(0, i + 1);
                assert(next.drop_last() =~= self.chunks@.subrange(0, i as int));
                assert(next.last() == self.chunks@[i as int]);
                assert(out@ =~= header_bytes(*self) + body_bytes(next));
            }
            i += 1;
        }
        assert(self.chunks@.subrange(0, self.chunks@.len() as int) =~= self.chunks@);
        out
    }

    /// Reads a file as it stands on disk; `None` where the bytes have not
    /// the form of a content file.
    pub fn decode(bytes: &[u8]) -> (out: Option<ContentFile>)
        ensures
            out matches Some(f) ==> f.wf() && file_bytes(f) == bytes@,
            out is None ==> !decodable(bytes@),
    {
        if bytes.len() < HEADER_LEN {
            return None;
        }
        let nonce_base = copy_range(bytes, 0, NONCE_LEN);
        let chunk_size = u32_from_le_bytes(slice_subrange(bytes, 12, 16));
        if chunk_size < MIN_CHUNK_SIZE || chunk_size > MAX_CHUNK_SIZE {
            return None;
        }
        let cipher = if bytes[16] == 0 {
            Cipher::ChaCha20
        } else if bytes[16] == 1 {
            Cipher::Aes256Gcm
        } else {
            return None;
        };
        let generation = u32_from_le_bytes(slice_subrange(bytes, 17, 21));
        let record = chunk_size as usize + RECORD_OVERHEAD;
        let body = bytes.len() - HEADER_LEN;
        let full = body / record;
        let rest = body % record;
        proof {
            lemma_fundamental_div_mod(body as int, record as int);
            assert(record * full == full * record) by (nonlinear_arith);
        }
        if rest != 0 && rest <= RECORD_OVERHEAD {
            return None;
        }
        if full > MAX_CHUNKS || (full == MAX_CHUNKS && rest != 0) {
            proof {
                assert(body > MAX_CHUNKS * record) by (nonlinear_arith)
                    requires
                        body == full * record + rest,
                        full > MAX_CHUNKS || (full == MAX_CHUNKS && rest > 0),
                        rest >= 0,
                        record > 0,
                ;
            }
            return None;
        }
        let mut chunks: Vec<Vec<u8>> = Vec::new();
        let mut i: usize = 0;
        assert(bytes@.subrange(HEADER_LEN as int, HEADER_LEN as int) =~= Seq::<u8>::empty());
        while i < full
            invariant
                i <= full,
                record == chunk_size + RECORD_OVERHEAD,
                body == bytes@.len() - HEADER_LEN,
                body == full * record + rest,
                0 <= rest,
                bytes@.len() <= usize::MAX,
                chunks@.len() == i,
                forall|k: int| 0 <= k < i ==> (#[trigger] chunks@[k])@.len() == record,
                body_bytes(chunks@) == bytes@.subrange(HEADER_LEN as int, HEADER_LEN + i * record),
            decreases full - i,
        {
            proof {
                assert((i + 1) * record == i * record + record) by (nonlinear_arith);
                assert((i + 1) * record <= full * record) by (nonlinear_arith)
                    requires
                        i + 1 <= full,
                        record >= 0,
                ;
            }
            let from = HEADER_LEN + i * record;
            let chunk = copy_range(bytes, from, from + record);
            let ghost before = chunks@;
            chunks.push(chunk);
            proof {
                assert(chunks@.drop_last() =~= before);
                assert(body_bytes(chunks@) =~= bytes@.subrange(
                    HEADER_LEN as int,
                    HEADER_LEN + (i + 1) * record,
                ));
            }
            i += 1;
        }
        if rest != 0 {
            let from = HEADER_LEN + full * record;
            let chunk = copy_range(bytes, from, bytes.len());
            let ghost before = chunks@;
            chunks.push(chunk);
            proof {
                assert(chunks@.drop_last() =~= before);
            }
        }
        assert(body_bytes(chunks@) =~= bytes@.subrange(HEADER_LEN as int, bytes@.len() as int));
        let seal = copy_range(bytes, 21, HEADER_LEN);
        let f = ContentFile { nonce_base, chunk_size, cipher, generation, seal, chunks };
        proof {
            lemma_auto_spec_u32_to_from_le_bytes();
            assert(spec_u32_to_le_bytes(chunk_size) == bytes@.subrange(12, 16));
            assert(spec_u32_to_le_bytes(generation) == bytes@.subrange(17, 21));
            assert(header_fields(f) =~= bytes@.subrange(0, 21));
            assert(header_bytes(f) =~= bytes@.subrange(0, HEADER_LEN as int));
            assert(file_bytes(f) =~= bytes@);
        }
        Some(f)
    }
}

/// Every chunk of a well-formed file is found in the body at its place.
pub proof fn lemma_chunk_at(f: ContentFile, k: int, i: int)
    requires
        f.wf(),
        0 <= i < k <= f.chunks@.len(),
    ensures
        i * (f.chunk_size + RECORD_OVERHEAD) + f.chunks@[i]@.len() <= body_bytes(
            f.chunks@.subrange(0, k),
        ).len(),
        body_bytes(f.chunks@.subrange(0, k)).subrange(
            i * (f.chunk_size + RECORD_OVERHEAD),
            i * (f.chunk_size + RECORD_OVERHEAD) + f.chunks@[i]@.len(),
        ) == f.chunks@[i]@,
    decreases k,
{
    let record = f.chunk_size + RECORD_OVERHEAD;
    let part = f.chunks@.subrange(0, k);
    let prev = f.chunks@.subrange(0, k - 1);
    lemma_body_len(f, k);
    lemma_body_len(f, k - 1);
    assert(part.drop_last() =~= prev);
    assert(part.last() == f.chunks@[k - 1]);
    assert(body_bytes(part) == body_bytes(prev) + f.chunks@[k - 1]@);
    if k - 1 > 0 {
        assert(f.chunks@[k - 2]@.len() == record);
        assert((k - 2) * record + record == (k - 1) * record) by (nonlinear_arith);
    } else {
        assert((k - 1) * record == 0) by (nonlinear_arith)
            requires
                k == 1,
        ;
    }
    assert(body_bytes(prev).len() == (k - 1) * record);
    if i == k - 1 {
        assert(body_bytes(part).subrange(i * record, i * record + f.chunks@[i]@.len())
            =~= f.chunks@[i]@);
    } else {
        lemma_chunk_at(f, k - 1, i);
        assert(body_bytes(part).subrange(i * record, i * record + f.chunks@[i]@.len())
            =~= body_bytes(prev).subrange(i * record, i * record + f.chunks@[i]@.len()));
    }
}

/// Two well-formed files that stand on disk as the same bytes hold the
/// same plaintext.
pub proof fn lemma_same_plain(f: ContentFile, g: ContentFile, ino: u64, key: Seq<u8>)
    requires
        f.wf(),
        g.wf(),
        file_bytes(f) == file_bytes(g),
    ensures
        f.chunk_size == g.chunk_size,
        f.cipher == g.cipher,
        f.plain_len() == g.plain_len(),
        f.plain(ino, key) == g.plain(ino, key),
        f.view_for(ino, key) == g.view_for(ino, key),
{
    lemma_auto_spec_u32_to_from_le_bytes();
    let bytes = file_bytes(f);
    assert(header_bytes(f) =~= bytes.subrange(0, HEADER_LEN as int));
    assert(header_bytes(g) =~= bytes.subrange(0, HEADER_LEN as int));
    assert(spec_u32_to_le_bytes(f.chunk_size) =~= header_bytes(f).subrange(12, 16));
    assert(spec_u32_to_le_bytes(g.chunk_size) =~= header_bytes(g).subrange(12, 16));
    assert(f.chunk_size == g.chunk_size);
    assert(cipher_code(f.cipher) == header_bytes(f)[16]);
    assert(cipher_code(g.cipher) == header_bytes(g)[16]);
    assert(spec_u32_to_le_bytes(f.generation) =~= header_bytes(f).subrange(17, 21));
    assert(spec_u32_to_le_bytes(g.generation) =~= header_bytes(g).subrange(17, 21));
    assert(f.generation == g.generation);
    assert(f.nonce_base@ =~= header_bytes(f).subrange(0, 12));
    assert(g.nonce_base@ =~= header_bytes(g).subrange(0, 12));
    assert(f.seal@ =~= header_bytes(f).subrange(21, HEADER_LEN as int));
    assert(g.seal@ =~= header_bytes(g).subrange(21, HEADER_LEN as int));
    assert(header_fields(f) =~= header_fields(g));
    let body = bytes.subrange(HEADER_LEN as int, bytes.len() as int);
    assert(body_bytes(f.chunks@) =~= body);
    assert(body_bytes(g.chunks@) =~= body);
    let record = f.chunk_size + RECORD_OVERHEAD;
    let nf = f.chunks@.len() as int;
    let ng = g.chunks@.len() as int;
    lemma_body_len(f, nf);
    lemma_body_len(g, ng);
    assert(f.chunks@.subrange(0, nf) =~= f.chunks@);
    assert(g.chunks@.subrange(0, ng) =~= g.chunks@);
    assert(nf == ng) by {
        if nf < ng {
            lemma_mul_mono(nf, ng - 1, record);
            if nf > 0 {
                assert((nf - 1) * record + record == nf * record) by (nonlinear_arith);
            } else {
                assert(0 <= (ng - 1) * record) by (nonlinear_arith)
                    requires
                        ng >= 1,
                        record >= 0,
                ;
            }
        }
        if ng < nf {
            lemma_mul_mono(ng, nf - 1, record);
            if ng > 0 {
                assert((ng - 1) * record + record == ng * record) by (nonlinear_arith);
            } else {
                assert(0 <= (nf - 1) * record) by (nonlinear_arith)
                    requires
                        nf >= 1,
                        record >= 0,
                ;
            }
        }
    }
    assert forall|i: int| 0 <= i < nf implies (#[trigger] f.chunks@[i])@ == g.chunks@[i]@ by {
        lemma_chunk_at(f, nf, i);
        lemma_chunk_at(g, nf, i);
        if i < nf - 1 {
            assert(f.chunks@[i]@.len() == record);
            assert(g.chunks@[i]@.len() == record);
        }
    }
    assert(f.plain(ino, key) =~= g.plain(ino, key)) by {
        assert forall|p: int| 0 <= p < f.plain_len() implies f.byte_at(ino, key, p) == g.byte_at(
            ino,
            key,
            p,
        ) by {
            f.lemma_in_chunk(p);
            assert(f.chunks@[p / (f.chunk_size as int)]@ == g.chunks@[p / (f.chunk_size as int)]@);
        }
    }
}

/// The well-formed file that stands on disk as the given bytes.
pub open spec fn stream_file(bytes: Seq<u8>) -> ContentFile {
    choose|f: ContentFile| f.wf() && file_bytes(f) == bytes
}

/// The plaintext of a sealed stream for an inode: `Corrupted` where the
/// bytes have not the form of a content file, or the header or a chunk
/// does not authenticate.
pub open spec fn stream_plain(key: Seq<u8>, ino: u64, bytes: Seq<u8>) -> Result<Seq<u8>, FsError> {
    if !decodable(bytes) {
        Err(FsError::Corrupted)
    } else {
        let f = stream_file(bytes);
        f.view_for(ino, key).read(0, f.plain_len(), f.plain_len())
    }
}

/// Seals a whole plaintext as the content file of an inode: the header,
/// then chunk by chunk. `None` where the key, the chunk size or the length
/// of the plaintext is not one that a file can have.
pub fn seal_stream(cipher: Cipher, key: &[u8], ino: u64, chunk_size: u32, plaintext: &[u8]) -> (out:
    Option<Vec<u8>>)
    ensures
        out is Some <==> key@.len() == KEY_LEN && MIN_CHUNK_SIZE <= chunk_size <= MAX_CHUNK_SIZE
            && plaintext@.len() <= chunk_size * MAX_CHUNKS,
        out matches Some(bytes) ==> stream_plain(key@, ino, bytes@) == Ok::<Seq<u8>, FsError>(
            plaintext@,
        ),
{
    if key.len() != KEY_LEN || chunk_size < MIN_CHUNK_SIZE || chunk_size > MAX_CHUNK_SIZE {
        return None;
    }
    proof {
        assert(chunk_size * MAX_CHUNKS <= MAX_CHUNK_SIZE * MAX_CHUNKS) by (nonlinear_arith)
            requires
                0 <= chunk_size <= MAX_CHUNK_SIZE,
        ;
    }
    if plaintext.len() as u64 > chunk_size as u64 * MAX_CHUNKS as u64 {
        return None;
    }
    let mut f = ContentFile::new(cipher, chunk_size, ino, key);
    let ghost empty = f.plain(ino, key@);
    assert(empty =~= Seq::<Option<u8>>::empty());
    assert(writable(empty, chunk_size as int, 0, plaintext@.len() as int));
    match f.write(ino, key, 0, plaintext) {
        Ok(()) => {},
        Err(_) => { return None; },
    }
    let bytes = f.encode();
    proof {
        lemma_decodable(f);
        let g = stream_file(bytes@);
        lemma_same_plain(f, g, ino, key@);
        let plain = f.plain(ino, key@);
        if plaintext@.len() > 0 {
            assert(plain == written(empty, 0, plaintext@));
        }
        assert(plain.len() == plaintext@.len());
        assert forall|p: int| 0 <= p < plain.len() implies (#[trigger] plain[p]) == Some(
            plaintext@[p],
        ) by {}
        let got = read_result(plain, 0, f.plain_len(), f.plain_len());
        assert(got is Ok);
        assert(got.unwrap() =~= plaintext@);
    }
    Some(bytes)
}

/// Opens a sealed stream of an inode and gives its whole plaintext, or
/// `Corrupted` for the first chunk that does not authenticate.
pub fn open_stream(key: &[u8], ino: u64, bytes: &[u8]) -> (out: Result<Vec<u8>, FsError>)
    ensures
        out matches Ok(p) ==> stream_plain(key@, ino, bytes@) == Ok::<Seq<u8>, FsError>(p@),
        out matches Err(e) ==> stream_plain(key@, ino, bytes@) == Err::<Seq<u8>, FsError>(e),
{
    let f = match ContentFile::decode(bytes) {
        Some(f) => f,
        None => { return Err(FsError::Corrupted); },
    };
    proof {
        lemma_decodable(f);
        lemma_same_plain(f, stream_file(bytes@), ino, key@);
        lemma_body_len(f, f.chunks@.len() as int);
        assert(f.chunks@.subrange(0, f.chunks@.len() as int) =~= f.chunks@);
        f.lemma_plain_len_bound();
        lemma_auto_spec_u32_to_from_le_bytes();
        assert(header_bytes(f).len() == HEADER_LEN);
        assert(bytes@.len() == HEADER_LEN + body_bytes(f.chunks@).len());
        let n = f.chunks@.len() as int;
        let cs = f.chunk_size as int;
        if n > 0 {
            assert((n - 1) * (cs + RECORD_OVERHEAD) >= (n - 1) * cs) by (nonlinear_arith)
                requires
                    n >= 1,
                    cs >= 0,
            ;
        }
        assert(f.plain_len() <= bytes@.len());
    }
    let total = f.len();
    if total > bytes.len() as u64 {
        return Err(FsError::Corrupted);
    }
    let out = f.read(ino, key, 0, total as usize, total);
    proof {
        let g = stream_file(bytes@);
        assert(g.plain(ino, key@) == f.plain(ino, key@));
        assert(g.plain_len() == f.plain_len());
    }
    out
}

} // verus!
