//! `WasmVibeField`: a growable array of float bit patterns with a
//! conservation baseline, and its binary record.
//!
//! Record layout, all little-endian:
//! `[4B value count] [count x 8B values] [4B tick] [8B baseline]`.
use vstd::bytes::{u32_from_le_bytes, u64_from_le_bytes};
use vstd::prelude::*;

use crate::encoding::{
    lemma_le_lengths, lemma_le_roundtrip, lemma_words_le_len, lemma_words_le_slot, push_u32,
    push_u64, push_words, u32_at, u32_le, u64_at, u64_le, words_at, words_le,
};
use crate::text::{field_no_length_error, field_no_length_message, field_short_error, field_short_message};

verus! {

/// Bit pattern of the float `0.0`.
pub const ZERO_BITS: u64 = 0;

/// A field of vibe values with conservation-law tracking. Each value and the
/// baseline are float bit patterns.
#[derive(Debug, Clone)]
pub struct WasmVibeField {
    pub values: Vec<u64>,
    pub tick: u32,
    pub conservation_baseline: u64,
}

/// The mathematical content of a field.
#[verifier::ext_equal]
pub struct FieldModel {
    pub values: Seq<u64>,
    pub tick: u32,
    pub baseline: u64,
}

impl View for WasmVibeField {
    type V = FieldModel;

    open spec fn view(&self) -> FieldModel {
        FieldModel { values: self.values@, tick: self.tick, baseline: self.conservation_baseline }
    }
}

/// The value at `index`, or `0.0` past the end.
pub open spec fn value_at(values: Seq<u64>, index: int) -> u64 {
    if 0 <= index < values.len() {
        values[index]
    } else {
        ZERO_BITS
    }
}

/// `values` with `v` stored at `index`; unchanged when `index` is past the end.
pub open spec fn with_value(values: Seq<u64>, index: int, v: u64) -> Seq<u64> {
    if 0 <= index < values.len() {
        values.update(index, v)
    } else {
        values
    }
}

/// `values` resized to `n` slots: cut short, or padded with `0.0`.
pub open spec fn resized(values: Seq<u64>, n: nat) -> Seq<u64> {
    if n <= values.len() {
        values.take(n as int)
    } else {
        values + Seq::new((n - values.len()) as nat, |i: int| ZERO_BITS)
    }
}

impl WasmVibeField {
    /// An empty field at tick 0 with the given baseline.
    pub fn new(baseline: u64) -> (f: Self)
        ensures
            f.values@ == Seq::<u64>::empty(),
            f.tick == 0,
            f.conservation_baseline == baseline,
    {
        WasmVibeField { values: Vec::new(), tick: 0, conservation_baseline: baseline }
    }

    /// Stores `value` at `index`; an index past the end changes nothing.
    pub fn set(&mut self, index: usize, value: u64)
        ensures
            final(self).values@ == with_value(old(self).values@, index as int, value),
            final(self).tick == old(self).tick,
            final(self).conservation_baseline == old(self).conservation_baseline,
    {
        if index < self.values.len() {
            self.values.set(index, value);
        }
    }

    /// The value at `index`, or `0.0` past the end.
    pub fn get(&self, index: usize) -> (v: u64)
        ensures
            v == value_at(self.values@, index as int),
    {
        if index < self.values.len() {
            self.values[index]
        } else {
            ZERO_BITS
        }
    }

    pub fn len(&self) -> (n: usize)
        ensures
            n == self.values@.len(),
    {
        self.values.len()
    }

    pub fn is_empty(&self) -> (b: bool)
        ensures
            b <==> self.values@.len() == 0,
    {
        self.values.is_empty()
    }

    /// Grows or shrinks the values to `new_len`; new slots hold `0.0`.
    pub fn resize(&mut self, new_len: usize)
        ensures
            final(self).values@ == resized(old(self).values@, new_len as nat),
            final(self).tick == old(self).tick,
            final(self).conservation_baseline == old(self).conservation_baseline,
    {
        self.values.resize(new_len, ZERO_BITS);
        assert(self.values@ =~= resized(old(self).values@, new_len as nat));
    }
}

/// Storing a value and reading it back: the slot written gives the value
/// stored, every other slot is untouched, the length does not change, and a
/// write past the end leaves every read as it was.
pub proof fn lemma_get_after_set(values: Seq<u64>, i: int, v: u64, j: int)
    ensures
        with_value(values, i, v).len() == values.len(),
        value_at(with_value(values, i, v), j) == if i == j && 0 <= i < values.len() {
            v
        } else {
            value_at(values, j)
        },
{
}

/// Resizing gives exactly `n` slots: the first values are kept and the new
/// slots hold `0.0`.
pub proof fn lemma_resize_shape(values: Seq<u64>, n: nat)
    ensures
        resized(values, n).len() == n,
        forall|i: int| 0 <= i < n && i < values.len() ==> #[trigger] resized(values, n)[i] == values[i],
        forall|i: int| values.len() <= i < n ==> #[trigger] resized(values, n)[i] == ZERO_BITS,
{
}

/// The record of a field: count, values, tick, baseline. The count word is
/// the number of values cut to 32 bits.
pub open spec fn field_record(m: FieldModel) -> Seq<u8> {
    u32_le(m.values.len() as u32) + words_le(m.values) + u32_le(m.tick) + u64_le(m.baseline)
}

/// Number of bytes a field record with `n` values occupies.
pub open spec fn field_record_len(n: nat) -> nat {
    16 + 8 * n
}

/// What reading a field record from `data` gives: the field, or the message
/// of the error. Bytes after the record are ignored.
pub open spec fn decode_field(data: Seq<u8>) -> Result<FieldModel, Seq<char>> {
    if data.len() < 4 {
        Err(field_no_length_message())
    } else {
        let n = u32_at(data, 0) as nat;
        if data.len() < field_record_len(n) {
            Err(field_short_message(data.len(), field_record_len(n)))
        } else {
            Ok(
                FieldModel {
                    values: words_at(data, 4, n),
                    tick: u32_at(data, 4 + 8 * n as int),
                    baseline: u64_at(data, 8 + 8 * n as int),
                },
            )
        }
    }
}

/// Writes the record of `field`.
pub fn serialize_field(field: &WasmVibeField) -> (out: Vec<u8>)
    ensures
        out@ == field_record(field@),
        out@.len() == field_record_len(field.values@.len()),
        u32_at(out@, 0) == field.values@.len() as u32,
        forall|i: int|
            0 <= i < field.values@.len() ==> u64_at(out@, 4 + 8 * i) == #[trigger] field.values@[i],
        u32_at(out@, 4 + 8 * field.values@.len() as int) == field.tick,
        u64_at(out@, 8 + 8 * field.values@.len() as int) == field.conservation_baseline,
{
    let len = field.values.len() as u32;
    let mut buf: Vec<u8> = Vec::new();
    push_u32(&mut buf, len);
    push_words(&mut buf, &field.values);
    push_u32(&mut buf, field.tick);
    push_u64(&mut buf, field.conservation_baseline);
    proof {
        lemma_le_lengths();
        lemma_words_le_len(field.values@);
        assert(buf@ =~= field_record(field@));
        lemma_field_record_layout(field@);
    }
    buf
}

/// Reads a field record from the front of `data`; bytes after it are ignored.
pub fn deserialize_field(data: &[u8]) -> (res: Result<WasmVibeField, String>)
    ensures
        match decode_field(data@) {
            Ok(m) => res is Ok && res->Ok_0@ == m,
            Err(msg) => res is Err && res->Err_0@ == msg,
        },
        res is Ok ==> {
            &&& res->Ok_0.values@.len() == u32_at(data@, 0)
            &&& forall|i: int|
                0 <= i < res->Ok_0.values@.len() ==> #[trigger] res->Ok_0.values@[i] == u64_at(
                    data@,
                    4 + 8 * i,
                )
            &&& res->Ok_0.tick == u32_at(data@, 4 + 8 * res->Ok_0.values@.len() as int)
            &&& res->Ok_0.conservation_baseline == u64_at(data@, 8 + 8 * res->Ok_0.values@.len() as int)
        },
{
    if data.len() < 4 {
        return Err(field_no_length_error());
    }
    let len = u32_from_le_bytes(&data[0..4]);
    let need: u64 = 16 + 8 * (len as u64);
    if (data.len() as u64) < need {
        return Err(field_short_error(data.len() as u64, need));
    }
    let n = len as usize;
    let mut values: Vec<u64> = Vec::new();
    let mut i: usize = 0;
    while i < n
        invariant
            n == len,
            i <= n,
            16 + 8 * n <= data.len(),
            values@ == words_at(data@, 4, i as nat),
        decreases n - i,
    {
        let off = 4 + 8 * i;
        let v = u64_from_le_bytes(&data[off..off + 8]);
        values.push(v);
        i += 1;
        assert(values@ =~= words_at(data@, 4, i as nat));
    }
    let off = 4 + 8 * n;
    let tick = u32_from_le_bytes(&data[off..off + 4]);
    let baseline = u64_from_le_bytes(&data[off + 4..off + 12]);
    Ok(WasmVibeField { values, tick, conservation_baseline: baseline })
}

/// Where each part of a field's record sits: the value count (cut to 32
/// bits) at 0, value `i` at `4 + 8 * i`, the tick right after the values
/// and the baseline after the tick, all little-endian; nothing else follows.
pub proof fn lemma_field_record_layout(m: FieldModel)
    ensures
        field_record(m).len() == 16 + 8 * m.values.len() as int,
        u32_at(field_record(m), 0) == m.values.len() as u32,
        forall|i: int| 0 <= i < m.values.len() ==> u64_at(field_record(m), 4 + 8 * i) == #[trigger] m.values[i],
        u32_at(field_record(m), 4 + 8 * m.values.len() as int) == m.tick,
        u64_at(field_record(m), 8 + 8 * m.values.len() as int) == m.baseline,
{
    lemma_le_lengths();
    lemma_le_roundtrip();
    lemma_words_le_len(m.values);
    let n = m.values.len() as int;
    let d = field_record(m);
    let w = words_le(m.values);
    assert(d.subrange(0, 4) =~= u32_le(m.values.len() as u32));
    assert forall|i: int| 0 <= i < n implies u64_at(d, 4 + 8 * i) == #[trigger] m.values[i] by {
        lemma_words_le_slot(m.values, i);
        assert(d.subrange(4 + 8 * i, 4 + 8 * i + 8) =~= w.subrange(8 * i, 8 * i + 8));
    }
    assert(d.subrange(4 + 8 * n, 4 + 8 * n + 4) =~= u32_le(m.tick));
    assert(d.subrange(8 + 8 * n, 8 + 8 * n + 8) =~= u64_le(m.baseline));
}

/// What a successful field read takes from where: the value count from the
/// word at 0, value `i` from the word at `4 + 8 * i`, the tick and the
/// baseline from the words right after the values.
pub proof fn lemma_field_decode_layout(d: Seq<u8>)
    requires
        decode_field(d) is Ok,
    ensures
        d.len() >= 16 + 8 * u32_at(d, 0) as int,
        decode_field(d)->Ok_0.values.len() == u32_at(d, 0),
        forall|i: int|
            0 <= i < u32_at(d, 0) ==> #[trigger] decode_field(d)->Ok_0.values[i] == u64_at(d, 4 + 8 * i),
        decode_field(d)->Ok_0.tick == u32_at(d, 4 + 8 * u32_at(d, 0) as int),
        decode_field(d)->Ok_0.baseline == u64_at(d, 8 + 8 * u32_at(d, 0) as int),
{
}

/// A field written and read back is the same field, whatever bytes follow
/// the record (as long as its value count fits the 32-bit count word).
pub proof fn lemma_field_roundtrip(m: FieldModel, rest: Seq<u8>)
    requires
        m.values.len() <= u32::MAX,
    ensures
        decode_field(field_record(m) + rest) == Ok::<FieldModel, Seq<char>>(m),
{
    lemma_le_lengths();
    lemma_le_roundtrip();
    lemma_words_le_len(m.values);
    let n = m.values.len() as int;
    let d = field_record(m) + rest;
    let w = words_le(m.values);
    assert(d.subrange(0, 4) =~= u32_le(n as u32));
    assert(u32_at(d, 0) == n);
    assert forall|i: int| 0 <= i < n implies #[trigger] words_at(d, 4, n as nat)[i] == m.values[i] by {
        lemma_words_le_slot(m.values, i);
        assert(d.subrange(4 + 8 * i, 4 + 8 * i + 8) =~= w.subrange(8 * i, 8 * i + 8));
    }
    assert(words_at(d, 4, n as nat) =~= m.values);
    assert(d.subrange(4 + 8 * n, 4 + 8 * n + 4) =~= u32_le(m.tick));
    assert(d.subrange(8 + 8 * n, 8 + 8 * n + 8) =~= u64_le(m.baseline));
}

/// Bytes after a field record do not change what is read.
pub proof fn lemma_field_trailing_ignored(d: Seq<u8>, rest: Seq<u8>)
    requires
        decode_field(d) is Ok,
    ensures
        decode_field(d + rest) == decode_field(d),
{
    let e = d + rest;
    let n = u32_at(d, 0) as nat;
    assert(e.subrange(0, 4) =~= d.subrange(0, 4));
    assert forall|i: int| 0 <= i < n implies #[trigger] words_at(e, 4, n)[i] == words_at(d, 4, n)[i] by {
        assert(e.subrange(4 + 8 * i, 4 + 8 * i + 8) =~= d.subrange(4 + 8 * i, 4 + 8 * i + 8));
    }
    assert(words_at(e, 4, n) =~= words_at(d, 4, n));
    let t = 4 + 8 * n as int;
    assert(e.subrange(t, t + 4) =~= d.subrange(t, t + 4));
    assert(e.subrange(t + 4, t + 12) =~= d.subrange(t + 4, t + 12));
}

/// A field record cut short anywhere is refused.
pub proof fn lemma_field_truncated_refused(m: FieldModel, k: int)
    requires
        m.values.len() <= u32::MAX,
        0 <= k < field_record(m).len(),
    ensures
        decode_field(field_record(m).take(k)) is Err,
{
    lemma_le_lengths();
    lemma_words_le_len(m.values);
    let full = field_record(m);
    let t = full.take(k);
    if k >= 4 {
        lemma_field_roundtrip(m, Seq::empty());
        assert(full + Seq::<u8>::empty() =~= full);
        assert(t.subrange(0, 4) =~= full.subrange(0, 4));
    }
}

/// Two fields with the same record are the same field (as long as their
/// value counts fit the 32-bit count word).
pub proof fn lemma_field_record_injective(a: FieldModel, b: FieldModel)
    requires
        a.values.len() <= u32::MAX,
        b.values.len() <= u32::MAX,
        field_record(a) == field_record(b),
    ensures
        a == b,
{
    lemma_field_roundtrip(a, Seq::empty());
    lemma_field_roundtrip(b, Seq::empty());
}

} // verus!
