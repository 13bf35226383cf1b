//! Small helpers on byte strings.
use vstd::bytes::{
    lemma_auto_spec_u64_to_from_le_bytes, spec_u64_from_le_bytes, spec_u64_to_le_bytes,
    u64_from_le_bytes, u64_to_le_bytes,
};
use vstd::prelude::*;
use vstd::slice::slice_subrange;

verus! {

/// Appends `src` to `dst`.
pub fn append(dst: &mut Vec<u8>, src: &[u8])
    ensures
        final(dst)@ == old(dst)@ + src@,
{
    let mut i: usize = 0;
    while i < src.len()
        invariant
            i <= src@.len(),
            dst@ == old(dst)@ + src@.subrange(0, i as int),
        decreases src@.len() - i,
    {
        dst.push(src[i]);
        i += 1;
    }
    assert(src@.subrange(0, src@.len() as int) == src@);
}

/// Copies `src[from..to]` into a new vector.
pub fn copy_range(src: &[u8], from: usize, to: usize) -> (out: Vec<u8>)
    requires
        from <= to <= src@.len(),
    ensures
        out@ == src@.subrange(from as int, to as int),
{
    let mut out: Vec<u8> = Vec::new();
    let mut i: usize = from;
    while i < to
        invariant
            from <= i <= to <= src@.len(),
            out@ == src@.subrange(from as int, i as int),
        decreases to - i,
    {
        out.push(src[i]);
        i += 1;
    }
    out
}

/// Whether two byte strings are equal.
pub fn equal(a: &[u8], b: &[u8]) -> (same: bool)
    ensures
        same == (a@ == b@),
{
    if a.len() != b.len() {
        return false;
    }
    let mut i: usize = 0;
    while i < a.len()
        invariant
            i <= a@.len(),
            a@.len() == b@.len(),
            a@.subrange(0, i as int) == b@.subrange(0, i as int),
        decreases a@.len() - i,
    {
        if a[i] != b[i] {
            return false;
        }
        assert(a@.subrange(0, i + 1) == a@.subrange(0, i as int).push(a@[i as int]));
        assert(b@.subrange(0, i + 1) == b@.subrange(0, i as int).push(b@[i as int]));
        i += 1;
    }
    assert(a@ == a@.subrange(0, a@.len() as int));
    assert(b@ == b@.subrange(0, b@.len() as int));
    true
}

/// The bytes of a sequence of 64-bit words, each in little-endian order.
pub open spec fn words_bytes(ws: Seq<u64>) -> Seq<u8>
    decreases ws.len(),
{
    if ws.len() == 0 {
        Seq::empty()
    } else {
        words_bytes(ws.drop_last()) + spec_u64_to_le_bytes(ws.last())
    }
}

/// The word that the eight bytes from `8 * i` on spell.
pub open spec fn word_at(b: Seq<u8>, i: int) -> u64 {
    spec_u64_from_le_bytes(b.subrange(8 * i, 8 * i + 8))
}

/// The words that `b` spells, where its length is a multiple of eight.
pub open spec fn bytes_words(b: Seq<u8>) -> Option<Seq<u64>> {
    if b.len() % 8 == 0 {
        Some(Seq::new((b.len() / 8) as nat, |i: int| word_at(b, i)))
    } else {
        None
    }
}

/// Every word is found again at its place in the bytes.
pub proof fn lemma_words_bytes(ws: Seq<u64>)
    ensures
        words_bytes(ws).len() == 8 * ws.len(),
        forall|i: int|
            0 <= i < ws.len() ==> #[trigger] words_bytes(ws).subrange(8 * i, 8 * i + 8)
                == spec_u64_to_le_bytes(ws[i]),
        bytes_words(words_bytes(ws)) == Some(ws),
    decreases ws.len(),
{
    lemma_auto_spec_u64_to_from_le_bytes();
    if ws.len() > 0 {
        let head = ws.drop_last();
        lemma_words_bytes(head);
        let b = words_bytes(ws);
        let hb = words_bytes(head);
        assert forall|i: int| 0 <= i < ws.len() implies #[trigger] b.subrange(8 * i, 8 * i + 8)
            == spec_u64_to_le_bytes(ws[i]) by {
            if i < head.len() {
                assert(b.subrange(8 * i, 8 * i + 8) == hb.subrange(8 * i, 8 * i + 8));
                assert(head[i] == ws[i]);
            } else {
                assert(b.subrange(8 * i, 8 * i + 8) == spec_u64_to_le_bytes(ws.last()));
            }
        }
    }
    let back = bytes_words(words_bytes(ws));
    assert(back is Some);
    assert(back.unwrap() =~= ws) by {
        assert forall|i: int| 0 <= i < ws.len() implies back.unwrap()[i] == ws[i] by {
            assert(words_bytes(ws).subrange(8 * i, 8 * i + 8) == spec_u64_to_le_bytes(ws[i]));
        }
    }
}

/// Bytes that spell words are the bytes of those words.
pub proof fn lemma_bytes_words(b: Seq<u8>)
    requires
        b.len() % 8 == 0,
    ensures
        words_bytes(bytes_words(b).unwrap()) == b,
    decreases b.len(),
{
    lemma_auto_spec_u64_to_from_le_bytes();
    let ws = bytes_words(b).unwrap();
    if b.len() > 0 {
        let n = ws.len() as int;
        let head = b.subrange(0, b.len() - 8);
        lemma_bytes_words(head);
        let hw = bytes_words(head).unwrap();
        assert(hw =~= ws.drop_last()) by {
            assert forall|i: int| 0 <= i < n - 1 implies hw[i] == ws[i] by {
                assert(head.subrange(8 * i, 8 * i + 8) == b.subrange(8 * i, 8 * i + 8));
            }
        }
        let tail = b.subrange(8 * (n - 1), 8 * (n - 1) + 8);
        assert(ws.last() == spec_u64_from_le_bytes(tail));
        assert(spec_u64_to_le_bytes(ws.last()) == tail);
        assert(head + tail =~= b);
    } else {
        assert(ws =~= Seq::<u64>::empty());
        assert(b =~= Seq::<u8>::empty());
    }
}

/// Writes `ws` out as bytes.
pub fn encode_words(ws: &[u64]) -> (out: Vec<u8>)
    ensures
        out@ == words_bytes(ws@),
{
    let mut out: Vec<u8> = Vec::new();
    let mut i: usize = 0;
    assert(ws@.subrange(0, 0) =~= Seq::<u64>::empty());
    while i < ws.len()
        invariant
            i <= ws@.len(),
            out@ == words_bytes(ws@.subrange(0, i as int)),
        decreases ws@.len() - i,
    {
        let word = u64_to_le_bytes(ws[i]);
        append(&mut out, word.as_slice());
        proof {
            let next = ws@.subrange(0, i + 1);
            assert(next.drop_last() =~= ws@.subrange(0, i as int));
            assert(next.last() == ws@[i as int]);
        }
        i += 1;
    }
    assert(ws@.subrange(0, ws@.len() as int) =~= ws@);
    out
}

/// Reads `b` as words; `None` where its length is no multiple of eight.
pub fn decode_words(b: &[u8]) -> (out: Option<Vec<u64>>)
    ensures
        out matches Some(ws) ==> bytes_words(b@) == Some(ws@),
        out is None ==> bytes_words(b@) is None,
{
    if b.len() % 8 != 0 {
        return None;
    }
    let n = b.len() / 8;
    let mut out: Vec<u64> = Vec::new();
    let mut i: usize = 0;
    while i < n
        invariant
            i <= n,
            8 * n == b@.len() <= usize::MAX,
            out@.len() == i,
            forall|j: int| 0 <= j < i ==> out@[j] == word_at(b@, j),
        decreases n - i,
    {
        let word = u64_from_le_bytes(slice_subrange(b, 8 * i, 8 * i + 8));
        out.push(word);
        i += 1;
    }
    assert(out@ =~= bytes_words(b@).unwrap());
    Some(out)
}

} // verus!
