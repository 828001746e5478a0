use vstd::prelude::*;

use crate::error::{DicWriteReason, DicWriteResult, ReasonModel};
use crate::word_id::WordId;

verus! {

/// Longest string, in UTF-16 code units, that a dictionary can hold.
pub const MAX_DIC_STRING_LEN: usize = 32767;

/// Longest list that a dictionary can hold.
pub const MAX_U32_ARRAY_LEN: usize = 127;

// ---------------------------------------------------------------- bytes

/// Little-endian bytes of a 16-bit value.
pub open spec fn le_u16(v: int) -> Seq<u8> {
    seq![(v % 256) as u8, (v / 256 % 256) as u8]
}

/// Little-endian bytes of an `i16` (two's complement).
pub open spec fn le_i16(v: i16) -> Seq<u8> {
    le_u16(if v < 0 { v + 65536 } else { v as int })
}

/// Little-endian bytes of a `u32`.
pub open spec fn le_u32(v: u32) -> Seq<u8> {
    seq![(v % 256) as u8, (v / 256 % 256) as u8, (v / 65536 % 256) as u8, (v / 16777216) as u8]
}

/// Little-endian bytes of a `u64`.
pub open spec fn le_u64(v: u64) -> Seq<u8> {
    le_u32((v % 0x1_0000_0000) as u32) + le_u32((v / 0x1_0000_0000) as u32)
}

/// Appends the little-endian bytes of `v`.
pub fn push_u16(w: &mut Vec<u8>, v: u16)
    ensures
        final(w)@ == old(w)@ + le_u16(v as int),
{
    w.push((v % 256) as u8);
    w.push((v / 256 % 256) as u8);
    proof {
        assert(final(w)@ =~= old(w)@ + le_u16(v as int));
    }
}

/// Appends the little-endian bytes of `v`.
pub fn push_i16(w: &mut Vec<u8>, v: i16)
    ensures
        final(w)@ == old(w)@ + le_i16(v),
{
    let u: u16 = if v < 0 { (v as i32 + 65536) as u16 } else { v as u16 };
    push_u16(w, u);
}

/// Appends the little-endian bytes of `v`.
pub fn push_u32(w: &mut Vec<u8>, v: u32)
    ensures
        final(w)@ == old(w)@ + le_u32(v),
{
    w.push((v % 256) as u8);
    w.push((v / 256 % 256) as u8);
    w.push((v / 65536 % 256) as u8);
    w.push((v / 16777216) as u8);
    proof {
        assert(final(w)@ =~= old(w)@ + le_u32(v));
    }
}

/// Appends the little-endian bytes of `v`.
pub fn push_u64(w: &mut Vec<u8>, v: u64)
    ensures
        final(w)@ == old(w)@ + le_u64(v),
{
    push_u32(w, (v % 0x1_0000_0000) as u32);
    push_u32(w, (v / 0x1_0000_0000) as u32);
    proof {
        assert(final(w)@ =~= old(w)@ + le_u64(v));
    }
}

/// Appends `bytes`.
pub fn push_all(w: &mut Vec<u8>, bytes: &Vec<u8>)
    ensures
        final(w)@ == old(w)@ + bytes@,
{
    let mut i: usize = 0;
    while i < bytes.len()
        invariant
            i <= bytes@.len(),
            w@ == old(w)@ + bytes@.take(i as int),
        decreases bytes@.len() - i,
    {
        proof {
            assert(bytes@.take(i + 1) =~= bytes@.take(i as int).push(bytes@[i as int]));
        }
        w.push(bytes[i]);
        i = i + 1;
    }
    proof {
        assert(bytes@.take(i as int) =~= bytes@);
    }
}

// ---------------------------------------------------------------- outcomes

/// A write that appends `expect`'s bytes and reports how many there are,
/// or appends nothing and fails with `expect`'s error.
pub open spec fn emitted(before: Seq<u8>, after: Seq<u8>, res: DicWriteResult<usize>, expect: Result<Seq<u8>, ReasonModel>) -> bool {
    match expect {
        Ok(b) => after == before + b && res == Ok::<usize, DicWriteReason>(b.len() as usize),
        Err(r) => after == before && (res matches Err(e) && e@ == r),
    }
}

/// The outcome of writing pieces one after the other until the first one
/// that fails: the bytes written, and the index and error of the failing
/// piece, if any.
pub open spec fn run_steps(steps: Seq<Result<Seq<u8>, ReasonModel>>) -> (Seq<u8>, Option<(nat, ReasonModel)>)
    decreases steps.len(),
{
    if steps.len() == 0 {
        (Seq::empty(), None)
    } else {
        let (b, e) = run_steps(steps.drop_last());
        if e is Some {
            (b, e)
        } else {
            match steps.last() {
                Ok(x) => (b + x, None),
                Err(r) => (b, Some(((steps.len() - 1) as nat, r))),
            }
        }
    }
}

/// One more piece written after `k` pieces that all succeeded.
pub proof fn lemma_run_steps_next(steps: Seq<Result<Seq<u8>, ReasonModel>>, k: int)
    requires
        0 <= k < steps.len(),
        run_steps(steps.take(k)).1 is None,
    ensures
        run_steps(steps.take(k + 1)) == (match steps[k] {
            Ok(x) => (run_steps(steps.take(k)).0 + x, None),
            Err(r) => (run_steps(steps.take(k)).0, Some((k as nat, r))),
        }),
{
    assert(steps.take(k + 1).drop_last() =~= steps.take(k));
    assert(steps.take(k + 1).last() == steps[k]);
}

/// Once a piece failed, the later ones change nothing.
pub proof fn lemma_run_steps_stop(steps: Seq<Result<Seq<u8>, ReasonModel>>, k: int)
    requires
        0 <= k <= steps.len(),
        run_steps(steps.take(k)).1 is Some,
    ensures
        run_steps(steps) == run_steps(steps.take(k)),
    decreases steps.len() - k,
{
    if k < steps.len() {
        assert(steps.take(k + 1).drop_last() =~= steps.take(k));
        lemma_run_steps_stop(steps, k + 1);
    } else {
        assert(steps.take(k) =~= steps);
    }
}

/// All pieces, once they all succeeded.
pub proof fn lemma_run_steps_all(steps: Seq<Result<Seq<u8>, ReasonModel>>)
    ensures
        run_steps(steps.take(steps.len() as int)) == run_steps(steps),
{
    assert(steps.take(steps.len() as int) =~= steps);
}

// ---------------------------------------------------------------- UTF-16

/// UTF-16 code units of a character.
pub open spec fn utf16_units(c: char) -> Seq<u16> {
    let v = c as u32;
    if v < 0x10000 {
        seq![v as u16]
    } else {
        let x = v - 0x10000;
        seq![(0xD800 + x / 1024) as u16, (0xDC00 + x % 1024) as u16]
    }
}

/// UTF-16 code units of a string.
pub open spec fn utf16_of(s: Seq<char>) -> Seq<u16>
    decreases s.len(),
{
    if s.len() == 0 {
        Seq::empty()
    } else {
        utf16_of(s.drop_last()) + utf16_units(s.last())
    }
}

/// Little-endian bytes of code units.
pub open spec fn utf16le(units: Seq<u16>) -> Seq<u8>
    decreases units.len(),
{
    if units.len() == 0 {
        Seq::empty()
    } else {
        utf16le(units.drop_last()) + le_u16(units.last() as int)
    }
}

/// The length prefix of a string of `n` code units: one byte below 127,
/// else two bytes with the high bit of the first one set.
pub open spec fn len_prefix(n: nat) -> Seq<u8> {
    if n < 127 {
        seq![n as u8]
    } else {
        seq![(n / 256 + 0x80) as u8, (n % 256) as u8]
    }
}

/// What writing a length gives.
pub open spec fn spec_write_len(n: nat) -> Result<Seq<u8>, ReasonModel> {
    if n > MAX_DIC_STRING_LEN {
        Err(ReasonModel::InvalidSize { actual: n, expected: MAX_DIC_STRING_LEN as nat })
    } else {
        Ok(len_prefix(n))
    }
}

/// What writing a string gives: its length in code units, then the units.
pub open spec fn spec_write_string(s: Seq<char>) -> Result<Seq<u8>, ReasonModel> {
    let units = utf16_of(s);
    if units.len() > MAX_DIC_STRING_LEN {
        Err(ReasonModel::InvalidSize { actual: units.len(), expected: MAX_DIC_STRING_LEN as nat })
    } else {
        Ok(len_prefix(units.len()) + utf16le(units))
    }
}

/// What writing `data` gives when it may be left empty: the empty string
/// when it equals `other`.
pub open spec fn spec_write_empty_if_equal(data: Seq<char>, other: Seq<char>) -> Result<Seq<u8>, ReasonModel> {
    if data == other {
        spec_write_string(Seq::empty())
    } else {
        spec_write_string(data)
    }
}

pub proof fn lemma_char_max(c: char)
    ensures
        c as u32 <= 0x10FFFF,
{
}

pub proof fn lemma_utf16le_len(units: Seq<u16>)
    ensures
        utf16le(units).len() == 2 * units.len(),
    decreases units.len(),
{
    if units.len() > 0 {
        lemma_utf16le_len(units.drop_last());
    }
}

pub proof fn lemma_utf16le_append(a: Seq<u16>, b: Seq<u16>)
    ensures
        utf16le(a + b) == utf16le(a) + utf16le(b),
    decreases b.len(),
{
    if b.len() == 0 {
        assert(a + b =~= a);
        assert(utf16le(a) + utf16le(b) =~= utf16le(a));
    } else {
        lemma_utf16le_append(a, b.drop_last());
        assert((a + b).drop_last() =~= a + b.drop_last());
        assert(utf16le(a) + utf16le(b) =~= utf16le(a) + utf16le(b.drop_last()) + le_u16(b.last() as int));
    }
}

/// Appends the length prefix of a string of `length` code units.
fn push_len(w: &mut Vec<u8>, length: usize) -> (res: DicWriteResult<usize>)
    ensures
        emitted(old(w)@, final(w)@, res, spec_write_len(length as nat)),
{
    if length > MAX_DIC_STRING_LEN {
        return Err(DicWriteReason::InvalidSize { actual: length, expected: MAX_DIC_STRING_LEN });
    }
    if length < 127 {
        w.push(length as u8);
        proof {
            assert(final(w)@ =~= old(w)@ + len_prefix(length as nat));
        }
        Ok(1)
    } else {
        w.push((length / 256 + 0x80) as u8);
        w.push((length % 256) as u8);
        proof {
            assert(final(w)@ =~= old(w)@ + len_prefix(length as nat));
        }
        Ok(2)
    }
}

/// Writes strings in the dictionary's UTF-16 form, with a scratch buffer
/// kept between calls.
pub struct Utf16Writer {
    buffer: Vec<u8>,
}

impl Utf16Writer {
    /// The bytes held in the scratch buffer.
    pub closed spec fn buffered(&self) -> Seq<u8> {
        self.buffer@
    }

    /// A writer whose scratch buffer is empty.
    pub fn new() -> (res: Utf16Writer)
        ensures
            res.buffered() == Seq::<u8>::empty(),
    {
        Utf16Writer { buffer: Vec::new() }
    }

    /// Writes the length prefix of a string of `length` code units.
    pub fn write_len(&mut self, w: &mut Vec<u8>, length: usize) -> (res: DicWriteResult<usize>)
        ensures
            emitted(old(w)@, final(w)@, res, spec_write_len(length as nat)),
    {
        push_len(w, length)
    }

    /// Writes `data`: its length in UTF-16 code units, then the code units
    /// in little-endian order.
    pub fn write(&mut self, w: &mut Vec<u8>, data: &str) -> (res: DicWriteResult<usize>)
        ensures
            emitted(old(w)@, final(w)@, res, spec_write_string(data@)),
    {
        self.buffer.clear();
        let ghost all = data@;
        for c in it: data.chars()
            invariant
                it.seq() == all,
                self.buffer@ == utf16le(utf16_of(all.take(it.index() as int))),
        {
            let ghost before = all.take(it.index() as int);
            let v = c as u32;
            if v < 0x10000 {
                push_u16(&mut self.buffer, v as u16);
            } else {
                let x = v - 0x10000;
                push_u16(&mut self.buffer, (0xD800 + x / 1024) as u16);
                push_u16(&mut self.buffer, (0xDC00 + x % 1024) as u16);
            }
            proof {
                let now = all.take(it.index() + 1);
                assert(now.drop_last() =~= before);
                assert(now.last() == c);
                lemma_utf16le_append(utf16_of(before), utf16_units(c));
                assert(utf16le(Seq::<u16>::empty()) =~= Seq::<u8>::empty());
                if v < 0x10000 {
                    let u = utf16_units(c);
                    assert(u =~= seq![v as u16]);
                    assert(u.drop_last() =~= Seq::<u16>::empty());
                    assert(utf16le(u) =~= utf16le(u.drop_last()) + le_u16(u.last() as int));
                    assert(utf16le(u) =~= le_u16(v as int));
                } else {
                    let x = v - 0x10000;
                    let u = utf16_units(c);
                    let hi = (0xD800 + x / 1024) as u16;
                    let lo = (0xDC00 + x % 1024) as u16;
                    lemma_char_max(c);
                    assert(hi as int == 0xD800 + x / 1024);
                    assert(lo as int == 0xDC00 + x % 1024);
                    assert(u =~= seq![hi, lo]);
                    assert(u.drop_last() =~= seq![hi]);
                    assert(u.drop_last().drop_last() =~= Seq::<u16>::empty());
                    assert(utf16le(u.drop_last()) =~= utf16le(u.drop_last().drop_last()) + le_u16(hi as int));
                    assert(utf16le(u) =~= utf16le(u.drop_last()) + le_u16(lo as int));
                    assert(utf16le(u) =~= le_u16(0xD800 + x / 1024) + le_u16(0xDC00 + x % 1024));
                }
            }
        }
        proof {
            assert(all.take(all.len() as int) =~= all);
            lemma_utf16le_len(utf16_of(all));
        }
        let length = self.buffer.len() / 2;
        if length > MAX_DIC_STRING_LEN {
            return Err(DicWriteReason::InvalidSize { actual: length, expected: MAX_DIC_STRING_LEN });
        }
        let prefix = push_len(w, length);
        match prefix {
            Ok(n) => {
                push_all(w, &self.buffer);
                proof {
                    assert(final(w)@ =~= old(w)@ + (len_prefix(length as nat) + utf16le(utf16_of(all))));
                }
                Ok(n + self.buffer.len())
            },
            Err(e) => Err(e),
        }
    }

    /// Writes `data`, or the empty string when it equals `other`.
    pub fn write_empty_if_equal(&mut self, w: &mut Vec<u8>, data: &str, other: &str) -> (res: DicWriteResult<usize>)
        ensures
            emitted(old(w)@, final(w)@, res, spec_write_empty_if_equal(data@, other@)),
    {
        let a = crate::text::chars_of(data);
        let b = crate::text::chars_of(other);
        if crate::text::chars_eq(&a, &b) {
            proof {
                reveal_strlit("");
            }
            self.write(w, "")
        } else {
            self.write(w, data)
        }
    }
}

// ---------------------------------------------------------------- u32 arrays

/// A value that a dictionary stores as a `u32`.
pub trait ToU32 {
    /// Whether the value can be turned into a `u32`.
    spec fn has_u32(&self) -> bool;

    /// The `u32` that stands for the value.
    spec fn u32_value(&self) -> u32;

    fn to_u32(&self) -> (res: u32)
        requires
            self.has_u32(),
        ensures
            res == self.u32_value(),
    ;
}

impl ToU32 for u32 {
    open spec fn has_u32(&self) -> bool {
        true
    }

    open spec fn u32_value(&self) -> u32 {
        *self
    }

    fn to_u32(&self) -> (res: u32) {
        *self
    }
}

impl ToU32 for WordId {
    open spec fn has_u32(&self) -> bool {
        true
    }

    open spec fn u32_value(&self) -> u32 {
        self.raw
    }

    fn to_u32(&self) -> (res: u32) {
        self.as_raw()
    }
}

/// Little-endian bytes of each value, in order.
pub open spec fn u32s_le(values: Seq<u32>) -> Seq<u8>
    decreases values.len(),
{
    if values.len() == 0 {
        Seq::empty()
    } else {
        u32s_le(values.drop_last()) + le_u32(values.last())
    }
}

pub proof fn lemma_u32s_le_len(values: Seq<u32>)
    ensures
        u32s_le(values).len() == 4 * values.len(),
    decreases values.len(),
{
    if values.len() > 0 {
        lemma_u32s_le_len(values.drop_last());
    }
}

/// The values that stand for the items.
pub open spec fn u32_values<T: ToU32>(items: Seq<T>) -> Seq<u32> {
    items.map_values(|x: T| x.u32_value())
}

/// Whether every item can be turned into a `u32`.
pub open spec fn all_have_u32<T: ToU32>(items: Seq<T>) -> bool {
    forall|i: int| 0 <= i < items.len() ==> #[trigger] items[i].has_u32()
}

/// What writing a list gives: its length in one byte, then each value in
/// four little-endian bytes.
pub open spec fn spec_write_u32_array(values: Seq<u32>) -> Result<Seq<u8>, ReasonModel> {
    if values.len() > MAX_U32_ARRAY_LEN {
        Err(ReasonModel::InvalidSize { actual: values.len(), expected: MAX_U32_ARRAY_LEN as nat })
    } else {
        Ok(seq![values.len() as u8] + u32s_le(values))
    }
}

/// Whether writing the list turns every item into a `u32` (the list is
/// short enough to be written).
pub open spec fn writes_items<T: ToU32>(items: Seq<T>) -> bool {
    items.len() <= MAX_U32_ARRAY_LEN
}

/// Writes a list of values: its length, then each value.
pub fn write_u32_array<T: ToU32>(w: &mut Vec<u8>, data: &Vec<T>) -> (res: DicWriteResult<usize>)
    requires
        writes_items(data@) ==> all_have_u32(data@),
    ensures
        emitted(old(w)@, final(w)@, res, spec_write_u32_array(u32_values(data@))),
{
    let len = data.len();
    if len > MAX_U32_ARRAY_LEN {
        return Err(DicWriteReason::InvalidSize { actual: len, expected: MAX_U32_ARRAY_LEN });
    }
    w.push(len as u8);
    let ghost values = u32_values(data@);
    let mut i: usize = 0;
    while i < len
        invariant
            len == data@.len() <= MAX_U32_ARRAY_LEN,
            i <= len,
            all_have_u32(data@),
            values == u32_values(data@),
            w@ == old(w)@ + seq![len as u8] + u32s_le(values.take(i as int)),
        decreases len - i,
    {
        let v = data[i].to_u32();
        proof {
            assert(values.take(i + 1).drop_last() =~= values.take(i as int));
            assert(values.take(i + 1).last() == v);
        }
        push_u32(w, v);
        proof {
            assert(w@ =~= old(w)@ + seq![len as u8] + u32s_le(values.take(i + 1)));
        }
        i = i + 1;
    }
    proof {
        assert(values.take(len as int) =~= values);
        lemma_u32s_le_len(values);
        assert(final(w)@ =~= old(w)@ + (seq![len as u8] + u32s_le(values)));
    }
    Ok(len * 4 + 1)
}

} // verus!
