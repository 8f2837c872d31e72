//! Little-endian words and the byte sequences they form.
use vstd::bytes::*;
use vstd::prelude::*;

verus! {

/// Bytes of a `u32` in little-endian order.
pub open spec fn u32_le(x: u32) -> Seq<u8> {
    spec_u32_to_le_bytes(x)
}

/// Bytes of a 64-bit word (a float's bit pattern) in little-endian order.
pub open spec fn u64_le(x: u64) -> Seq<u8> {
    spec_u64_to_le_bytes(x)
}

/// The words of `words` one after the other, each as 8 little-endian bytes.
pub open spec fn words_le(words: Seq<u64>) -> Seq<u8>
    decreases words.len(),
{
    if words.len() == 0 {
        Seq::empty()
    } else {
        words_le(words.drop_last()) + u64_le(words.last())
    }
}

pub proof fn lemma_le_lengths()
    ensures
        forall|x: u32| #[trigger] u32_le(x).len() == 4,
        forall|x: u64| #[trigger] u64_le(x).len() == 8,
{
    lemma_auto_spec_u32_to_from_le_bytes();
    lemma_auto_spec_u64_to_from_le_bytes();
}

pub proof fn lemma_words_le_len(words: Seq<u64>)
    ensures
        words_le(words).len() == 8 * words.len(),
    decreases words.len(),
{
    lemma_le_lengths();
    if words.len() > 0 {
        lemma_words_le_len(words.drop_last());
    }
}

/// The 32-bit word stored little-endian at `off`.
pub open spec fn u32_at(data: Seq<u8>, off: int) -> u32 {
    spec_u32_from_le_bytes(data.subrange(off, off + 4))
}

/// The 64-bit word stored little-endian at `off`.
pub open spec fn u64_at(data: Seq<u8>, off: int) -> u64 {
    spec_u64_from_le_bytes(data.subrange(off, off + 8))
}

/// The `n` consecutive 64-bit words stored from `off` on.
pub open spec fn words_at(data: Seq<u8>, off: int, n: nat) -> Seq<u64> {
    Seq::new(n, |i: int| u64_at(data, off + 8 * i))
}

/// The 8 bytes of word `i` sit at offset `8 * i` of the sequence.
pub proof fn lemma_words_le_slot(words: Seq<u64>, i: int)
    requires
        0 <= i < words.len(),
    ensures
        words_le(words).subrange(8 * i, 8 * i + 8) == u64_le(words[i]),
    decreases words.len(),
{
    lemma_le_lengths();
    let front = words.drop_last();
    lemma_words_le_len(front);
    let all = words_le(words);
    assert(all == words_le(front) + u64_le(words.last()));
    if i == words.len() - 1 {
        assert(all.subrange(8 * i, 8 * i + 8) =~= u64_le(words.last()));
    } else {
        lemma_words_le_slot(front, i);
        assert(all.subrange(8 * i, 8 * i + 8) =~= words_le(front).subrange(8 * i, 8 * i + 8));
    }
}

/// Reading back a little-endian `u32` or word gives the value written.
pub proof fn lemma_le_roundtrip()
    ensures
        forall|x: u32| #[trigger] spec_u32_from_le_bytes(u32_le(x)) == x,
        forall|x: u64| #[trigger] spec_u64_from_le_bytes(u64_le(x)) == x,
{
    lemma_auto_spec_u32_to_from_le_bytes();
    lemma_auto_spec_u64_to_from_le_bytes();
    assert forall|x: u32| #[trigger] spec_u32_from_le_bytes(u32_le(x)) == x by {
        assert(spec_u32_to_le_bytes(x).len() == 4);
    }
}

/// Appends the 4 little-endian bytes of `x`.
pub fn push_u32(buf: &mut Vec<u8>, x: u32)
    ensures
        final(buf)@ == old(buf)@ + u32_le(x),
{
    let mut bytes = u32_to_le_bytes(x);
    buf.append(&mut bytes);
}

/// Appends the 8 little-endian bytes of `x`.
pub fn push_u64(buf: &mut Vec<u8>, x: u64)
    ensures
        final(buf)@ == old(buf)@ + u64_le(x),
{
    let mut bytes = u64_to_le_bytes(x);
    buf.append(&mut bytes);
}

/// Appends every word of `words`, in order, 8 little-endian bytes each.
pub fn push_words(buf: &mut Vec<u8>, words: &Vec<u64>)
    ensures
        final(buf)@ == old(buf)@ + words_le(words@),
{
    let ghost start = buf@;
    let mut i: usize = 0;
    while i < words.len()
        invariant
            i <= words.len(),
            buf@ == start + words_le(words@.take(i as int)),
        decreases words.len() - i,
    {
        push_u64(buf, words[i]);
        proof {
            let t = words@.take(i + 1);
            assert(t.drop_last() == words@.take(i as int));
            assert(t.last() == words@[i as int]);
        }
        i += 1;
    }
    assert(words@.take(words.len() as int) == words@);
}

} // verus!
