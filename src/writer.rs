use vstd::prelude::*;

use crate::bytes::{be_bytes, int_bytes, le_bytes, lemma_be_bytes_len, lemma_le_bytes_len, pow256, uint_bytes};
use crate::error::VdfError;
use crate::reader::{seek_target, SeekMode};

verus! {

/// A cursor that writes into a growable byte buffer.
pub struct Writer {
    data: Vec<u8>,
    offset: usize,
}

/// The bytes of a string as the writer stores them: the optional `u32` length prefix, the
/// UTF-8 bytes, and the optional NUL terminator.
pub open spec fn string_bytes(s: Seq<char>, prefix_with_length: bool, nul_terminate: bool, little: bool) -> Seq<u8> {
    let b = vstd::utf8::encode_utf8(s);
    (if prefix_with_length {
        uint_bytes(b.len(), 4, little)
    } else {
        Seq::empty()
    }) + b + (if nul_terminate {
        seq![0u8]
    } else {
        Seq::empty()
    })
}

/// The length that a buffer of length `len` grows to so that `need` bytes fit: it
/// doubles (from one byte, when empty) until they fit, and stops at `need` where doubling
/// would leave the address space.
pub open spec fn grown_len(len: nat, need: nat) -> nat
    decreases (if len < need { need - len } else { 0 }),
{
    if len >= need {
        len
    } else if len == 0 {
        grown_len(1, need)
    } else if 2 * len <= usize::MAX {
        grown_len(2 * len, need)
    } else {
        need
    }
}

/// `b` grown so that `need` bytes fit, the new bytes zero.
pub open spec fn grown(b: Seq<u8>, need: nat) -> Seq<u8> {
    b + Seq::new((grown_len(b.len(), need) - b.len()) as nat, |i: int| 0u8)
}

pub proof fn lemma_grown_len(len: nat, need: nat)
    ensures
        grown_len(len, need) >= len,
        grown_len(len, need) >= need,
    decreases (if len < need { need - len } else { 0 }),
{
    if len < need {
        if len == 0 {
            lemma_grown_len(1, need);
        } else if 2 * len <= usize::MAX {
            lemma_grown_len(2 * len, need);
        }
    }
}

pub proof fn lemma_grown_fits(b: Seq<u8>, need: nat)
    requires
        b.len() >= need,
    ensures
        grown(b, need) == b,
{
    assert(grown(b, need) =~= b);
}

impl Writer {
    /// The whole backing buffer.
    pub closed spec fn buffer(&self) -> Seq<u8> {
        self.data@
    }

    /// The current offset.
    pub closed spec fn pos(&self) -> int {
        self.offset as int
    }

    /// The bytes before the cursor.
    pub open spec fn written(&self) -> Seq<u8> {
        self.buffer().take(self.pos())
    }

    /// After a write that needed the buffer to hold `need` bytes, the bytes after the
    /// cursor are those of the earlier buffer `before`, grown for `need`.
    pub open spec fn rest_is_grown(&self, before: &Writer, need: int) -> bool {
        self.buffer() == self.written() + grown(before.buffer(), need as nat).skip(self.pos())
    }

    pub open spec fn wf(&self) -> bool {
        0 <= self.pos() <= self.buffer().len()
    }

    pub fn get_data(&self) -> (r: &[u8])
        ensures
            r@ == self.buffer(),
    {
        self.data.as_slice()
    }

    pub fn get_offset(&self) -> (r: usize)
        ensures
            r == self.pos(),
    {
        self.offset
    }

    /// A writer over `buf`, its cursor at the start.
    pub fn new(buf: Vec<u8>) -> (r: Writer)
        ensures
            r.wf(),
            r.buffer() == buf@,
            r.pos() == 0,
    {
        Writer { data: buf, offset: 0 }
    }

    /// Hands back the backing buffer.
    pub fn into_data(self) -> (r: Vec<u8>)
        ensures
            r@ == self.buffer(),
    {
        self.data
    }

    /// Moves the cursor; a target outside the buffer leaves it where it was.
    pub fn seek(&mut self, offset: usize, mode: SeekMode) -> (r: Result<(), VdfError>)
        requires
            old(self).wf(),
        ensures
            final(self).wf(),
            final(self).buffer() == old(self).buffer(),
            ({
                let t = seek_target(old(self).pos(), old(self).buffer().len() as int, offset as int, mode);
                if 0 <= t <= old(self).buffer().len() {
                    r is Ok && final(self).pos() == t
                } else {
                    r == Err::<(), VdfError>(VdfError::TruncatedInput) && final(self).pos() == old(self).pos()
                }
            }),
    {
        let len = self.data.len();
        match mode {
            SeekMode::Absolute => {
                if offset <= len {
                    self.offset = offset;
                    Ok(())
                } else {
                    Err(VdfError::TruncatedInput)
                }
            },
            SeekMode::Forward => {
                if offset <= len - self.offset {
                    self.offset = self.offset + offset;
                    Ok(())
                } else {
                    Err(VdfError::TruncatedInput)
                }
            },
            SeekMode::FromEnd => {
                if offset <= len {
                    self.offset = len - offset;
                    Ok(())
                } else {
                    Err(VdfError::TruncatedInput)
                }
            },
        }
    }

    /// Grows the buffer, doubling its length, until `n` more bytes fit after the cursor;
    /// the new bytes are zero.
    fn expand_capacity(&mut self, n: usize)
        requires
            old(self).wf(),
            old(self).pos() + n <= usize::MAX,
        ensures
            final(self).wf(),
            final(self).pos() == old(self).pos(),
            final(self).buffer() == grown(old(self).buffer(), (old(self).pos() + n) as nat),
            final(self).buffer().len() >= old(self).pos() + n,
            final(self).written() == old(self).written(),
    {
        proof {
            lemma_grown_len(old(self).buffer().len(), (old(self).pos() + n) as nat);
        }
        let need = self.offset + n;
        let len0 = self.data.len();
        let mut target = len0;
        while target < need
            invariant
                len0 <= target <= usize::MAX,
                len0 == old(self).buffer().len(),
                need <= usize::MAX,
                grown_len(target as nat, need as nat) == grown_len(len0 as nat, need as nat),
            decreases (if target < need { need - target } else { 0 }),
        {
            target = if target == 0 {
                1
            } else if target <= usize::MAX / 2 {
                target * 2
            } else {
                need
            };
        }
        assert(grown_len(target as nat, need as nat) == target);
        while self.data.len() < target
            invariant
                len0 <= self.data@.len() <= target,
                self.data@ == old(self).buffer() + Seq::new((self.data@.len() - len0) as nat, |i: int| 0u8),
                self.offset == old(self).pos(),
                self.offset <= len0,
                len0 == old(self).buffer().len(),
            decreases target - self.data@.len(),
        {
            let ghost before = self.data@;
            self.data.push(0);
            assert(self.data@ =~= old(self).buffer() + Seq::new((self.data@.len() - len0) as nat, |i: int| 0u8));
        }
        assert(self.data@.take(self.offset as int) =~= old(self).written());
    }

    /// Writes the `width` low bytes of `v` at the cursor.
    fn write_i(&mut self, v: u64, width: usize, little: bool) -> (r: u8)
        requires
            old(self).wf(),
            1 <= width <= 8,
            v < pow256(width as nat),
            old(self).pos() + width <= usize::MAX,
        ensures
            final(self).wf(),
            final(self).written() == old(self).written() + uint_bytes(v as nat, width as nat, little),
            final(self).pos() == old(self).pos() + width,
            final(self).rest_is_grown(old(self), old(self).pos() + width),
            r == width,
    {
        self.expand_capacity(width);
        let ghost g = self.data@;
        let start = self.offset;
        let ghost pre = self.data@.take(start as int);
        let ghost target = uint_bytes(v as nat, width as nat, little);
        proof {
            lemma_le_bytes_len(v as nat, width as nat);
            lemma_be_bytes_len(v as nat, width as nat);
        }
        let mut cur: u64 = v;
        if little {
            let mut i: usize = 0;
            while i < width
                invariant
                    start + width <= self.data@.len(),
                    start + width <= usize::MAX,
                    self.data@.len() == g.len(),
                    forall|j: int| start + width <= j < g.len() ==> self.data@[j] == g[j],
                    self.data@.take(start as int) == pre,
                    0 <= i <= width,
                    target == le_bytes(v as nat, width as nat),
                    target.len() == width,
                    self.data@.subrange(start as int, start + i) + le_bytes(cur as nat, (width - i) as nat) == target,
                decreases width - i,
            {
                let ghost before = self.data@;
                let ghost rest = le_bytes(cur as nat, (width - i) as nat);
                self.data.set(start + i, (cur % 256) as u8);
                proof {
                    assert(rest == seq![(cur % 256) as u8] + le_bytes((cur / 256) as nat, (width - i - 1) as nat));
                    assert(self.data@.take(start as int) =~= before.take(start as int));
                    assert(self.data@.subrange(start as int, start + i + 1) =~= before.subrange(start as int, start + i).push((cur % 256) as u8));
                    assert(self.data@.subrange(start as int, start + i + 1) + le_bytes((cur / 256) as nat, (width - i - 1) as nat) =~= before.subrange(start as int, start + i) + rest);
                }
                cur = cur / 256;
                i = i + 1;
            }
        } else {
            let mut i: usize = width;
            while i > 0
                invariant
                    start + width <= self.data@.len(),
                    start + width <= usize::MAX,
                    self.data@.len() == g.len(),
                    forall|j: int| start + width <= j < g.len() ==> self.data@[j] == g[j],
                    self.data@.take(start as int) == pre,
                    0 <= i <= width,
                    target == be_bytes(v as nat, width as nat),
                    target.len() == width,
                    be_bytes(cur as nat, i as nat) + self.data@.subrange(start + i, start + width) == target,
                decreases i,
            {
                let ghost before = self.data@;
                let ghost rest = be_bytes(cur as nat, i as nat);
                self.data.set(start + i - 1, (cur % 256) as u8);
                proof {
                    assert(rest == be_bytes((cur / 256) as nat, (i - 1) as nat).push((cur % 256) as u8));
                    assert(self.data@.take(start as int) =~= before.take(start as int));
                    assert(self.data@.subrange(start + i - 1, start + width) =~= seq![(cur % 256) as u8] + before.subrange(start + i, start + width));
                    assert(be_bytes((cur / 256) as nat, (i - 1) as nat) + self.data@.subrange(start + i - 1, start + width) =~= rest + before.subrange(start + i, start + width));
                }
                cur = cur / 256;
                i = i - 1;
            }
            assert(be_bytes(cur as nat, 0) =~= Seq::<u8>::empty());
            assert(self.data@.subrange(start + 0, start + width) =~= self.data@.subrange(start as int, start + width));
        }
        self.offset = start + width;
        assert(self.data@ =~= self.data@.take(start + width) + g.skip(start + width));
        assert(self.data@.take(start + width) =~= pre + self.data@.subrange(start as int, start + width));
        assert(self.data@.subrange(start as int, start + width) =~= target);
        width as u8
    }

    /// Drops the bytes after the cursor.
    pub fn trim(&mut self)
        requires
            old(self).wf(),
        ensures
            final(self).wf(),
            final(self).buffer() == old(self).written(),
            final(self).pos() == old(self).pos(),
    {
        self.data.truncate(self.offset);
    }

    /// The bytes left in the buffer after the cursor.
    pub fn remaining(&self) -> (r: usize)
        requires
            self.wf(),
        ensures
            r == self.buffer().len() - self.pos(),
    {
        self.data.len() - self.offset
    }

    pub fn write_uint8(&mut self, data: u8, endianness: bool) -> (r: u8)
        requires
            old(self).wf(),
            old(self).pos() + 1 <= usize::MAX,
        ensures
            final(self).wf(),
            final(self).written() == old(self).written() + uint_bytes(data as nat, 1, endianness),
            final(self).pos() == old(self).pos() + 1,
            final(self).rest_is_grown(old(self), old(self).pos() + 1),
            r == 1,
    {
        proof {
            reveal_with_fuel(pow256, 2);
        }
        self.write_i(data as u64, 1, endianness)
    }

    pub fn write_uint16(&mut self, data: u16, endianness: bool) -> (r: u8)
        requires
            old(self).wf(),
            old(self).pos() + 2 <= usize::MAX,
        ensures
            final(self).wf(),
            final(self).written() == old(self).written() + uint_bytes(data as nat, 2, endianness),
            final(self).pos() == old(self).pos() + 2,
            final(self).rest_is_grown(old(self), old(self).pos() + 2),
            r == 2,
    {
        proof {
            reveal_with_fuel(pow256, 3);
        }
        self.write_i(data as u64, 2, endianness)
    }

    pub fn write_uint32(&mut self, data: u32, endianness: bool) -> (r: u8)
        requires
            old(self).wf(),
            old(self).pos() + 4 <= usize::MAX,
        ensures
            final(self).wf(),
            final(self).written() == old(self).written() + uint_bytes(data as nat, 4, endianness),
            final(self).pos() == old(self).pos() + 4,
            final(self).rest_is_grown(old(self), old(self).pos() + 4),
            r == 4,
    {
        proof {
            reveal_with_fuel(pow256, 5);
        }
        self.write_i(data as u64, 4, endianness)
    }

    pub fn write_uint64(&mut self, data: u64, endianness: bool) -> (r: u8)
        requires
            old(self).wf(),
            old(self).pos() + 8 <= usize::MAX,
        ensures
            final(self).wf(),
            final(self).written() == old(self).written() + uint_bytes(data as nat, 8, endianness),
            final(self).pos() == old(self).pos() + 8,
            final(self).rest_is_grown(old(self), old(self).pos() + 8),
            r == 8,
    {
        proof {
            reveal_with_fuel(pow256, 9);
        }
        self.write_i(data as u64, 8, endianness)
    }

    pub fn write_int8(&mut self, data: i8, endianness: bool) -> (r: u8)
        requires
            old(self).wf(),
            old(self).pos() + 1 <= usize::MAX,
        ensures
            final(self).wf(),
            final(self).written() == old(self).written() + int_bytes(data as int, 1, endianness),
            final(self).pos() == old(self).pos() + 1,
            final(self).rest_is_grown(old(self), old(self).pos() + 1),
            r == 1,
    {
        proof {
            reveal_with_fuel(pow256, 2);
        }
        let v: u64 = if data < 0 { (data as i16 + 0x100) as u64 } else { data as u64 };
        self.write_i(v, 1, endianness)
    }

    pub fn write_int16(&mut self, data: i16, endianness: bool) -> (r: u8)
        requires
            old(self).wf(),
            old(self).pos() + 2 <= usize::MAX,
        ensures
            final(self).wf(),
            final(self).written() == old(self).written() + int_bytes(data as int, 2, endianness),
            final(self).pos() == old(self).pos() + 2,
            final(self).rest_is_grown(old(self), old(self).pos() + 2),
            r == 2,
    {
        proof {
            reveal_with_fuel(pow256, 3);
        }
        let v: u64 = if data < 0 { (data as i32 + 0x1_0000) as u64 } else { data as u64 };
        self.write_i(v, 2, endianness)
    }

    pub fn write_int32(&mut self, data: i32, endianness: bool) -> (r: u8)
        requires
            old(self).wf(),
            old(self).pos() + 4 <= usize::MAX,
        ensures
            final(self).wf(),
            final(self).written() == old(self).written() + int_bytes(data as int, 4, endianness),
            final(self).pos() == old(self).pos() + 4,
            final(self).rest_is_grown(old(self), old(self).pos() + 4),
            r == 4,
    {
        proof {
            reveal_with_fuel(pow256, 5);
        }
        let v: u64 = if data < 0 { (data as i64 + 0x1_0000_0000) as u64 } else { data as u64 };
        self.write_i(v, 4, endianness)
    }

    pub fn write_int64(&mut self, data: i64, endianness: bool) -> (r: u8)
        requires
            old(self).wf(),
            old(self).pos() + 8 <= usize::MAX,
        ensures
            final(self).wf(),
            final(self).written() == old(self).written() + int_bytes(data as int, 8, endianness),
            final(self).pos() == old(self).pos() + 8,
            final(self).rest_is_grown(old(self), old(self).pos() + 8),
            r == 8,
    {
        proof {
            reveal_with_fuel(pow256, 9);
        }
        let v: u64 = if data < 0 { ((data as i128) + 0x1_0000_0000_0000_0000) as u64 } else { data as u64 };
        self.write_i(v, 8, endianness)
    }

    /// Copies `bytes` to the cursor.
    pub fn write_bytes(&mut self, bytes: &[u8]) -> (r: usize)
        requires
            old(self).wf(),
            old(self).pos() + bytes@.len() <= usize::MAX,
        ensures
            final(self).wf(),
            final(self).written() == old(self).written() + bytes@,
            final(self).pos() == old(self).pos() + bytes@.len(),
            final(self).rest_is_grown(old(self), old(self).pos() + bytes@.len()),
            r == bytes@.len(),
    {
        let n = bytes.len();
        self.expand_capacity(n);
        let ghost g = self.data@;
        self.copy_in(bytes);
        assert(self.data@ =~= self.written() + g.skip(self.pos()));
        n
    }

    /// Copies `bytes` to the cursor, which has room for them.
    fn copy_in(&mut self, bytes: &[u8])
        requires
            old(self).wf(),
            old(self).pos() + bytes@.len() <= old(self).buffer().len(),
        ensures
            final(self).wf(),
            final(self).written() == old(self).written() + bytes@,
            final(self).pos() == old(self).pos() + bytes@.len(),
            final(self).buffer().len() == old(self).buffer().len(),
            final(self).buffer().skip(final(self).pos()) == old(self).buffer().skip(final(self).pos()),
    {
        let n = bytes.len();
        let len = self.data.len();
        let base = self.offset;
        let ghost g = self.data@;
        let ghost pre = g.take(base as int);
        let mut i: usize = 0;
        while i < n
            invariant
                base + n <= self.data@.len(),
                g.len() == len,
                self.data@.len() == g.len(),
                forall|j: int| base + n <= j < g.len() ==> self.data@[j] == g[j],
                self.data@.take(base as int) == pre,
                0 <= i <= n,
                n == bytes@.len(),
                self.data@.subrange(base as int, base + i) == bytes@.take(i as int),
            decreases n - i,
        {
            let ghost before = self.data@;
            self.data.set(base + i, bytes[i]);
            proof {
                assert(self.data@.take(base as int) =~= before.take(base as int));
                assert(self.data@.subrange(base as int, base + i + 1) =~= bytes@.take(i + 1));
            }
            i = i + 1;
        }
        assert(bytes@.take(n as int) =~= bytes@);
        self.offset = base + n;
        assert(self.data@.take(base + n) =~= pre + bytes@);
        assert(self.data@.skip(base + n) =~= g.skip(base + n));
    }

    /// Writes a string as UTF-8: after its length as a `u32` when `prefix_with_length`,
    /// and followed by a NUL byte when `nul_terminate`, which the cursor passes. Returns the
    /// string's byte length, plus 4 with the prefix; the NUL is not counted.
    pub fn write_string(&mut self, data: String, prefix_with_length: bool, nul_terminate: bool, endianness: bool) -> (r: usize)
        requires
            old(self).wf(),
            old(self).pos() + vstd::utf8::encode_utf8(data@).len() + 5 <= usize::MAX,
            prefix_with_length ==> vstd::utf8::encode_utf8(data@).len() <= u32::MAX,
        ensures
            final(self).wf(),
            final(self).written() == old(self).written() + string_bytes(data@, prefix_with_length, nul_terminate, endianness),
            final(self).pos() == old(self).pos() + string_bytes(data@, prefix_with_length, nul_terminate, endianness).len(),
            final(self).rest_is_grown(
                old(self),
                old(self).pos() + string_bytes(data@, prefix_with_length, nul_terminate, endianness).len(),
            ),
            r == vstd::utf8::encode_utf8(data@).len() + if prefix_with_length { 4int } else { 0int },
    {
        let bytes = data.as_str().as_bytes();
        let n = bytes.len();
        let ghost enc = vstd::utf8::encode_utf8(data@);
        assert(bytes@ == enc);
        let ghost start = self.written();
        let ghost sb = string_bytes(data@, prefix_with_length, nul_terminate, endianness);
        proof {
            lemma_le_bytes_len(n as nat, 4);
            lemma_be_bytes_len(n as nat, 4);
        }
        let head: usize = if prefix_with_length { 4 } else { 0 };
        let tail: usize = if nul_terminate { 1 } else { 0 };
        assert(sb.len() == head + n + tail);
        self.expand_capacity(head + n + tail);
        let ghost g = self.data@;
        assert(g == grown(old(self).buffer(), (old(self).pos() + sb.len()) as nat));
        if prefix_with_length {
            self.write_uint32(n as u32, endianness);
            proof {
                lemma_grown_fits(g, (old(self).pos() + 4) as nat);
            }
        }
        assert(self.data@.skip(self.offset as int) =~= g.skip(self.offset as int));
        let ghost before_copy = self.data@;
        let ghost off1 = self.offset as int;
        self.copy_in(bytes);
        assert(self.data@.skip(self.offset as int) =~= g.skip(self.offset as int)) by {
            assert forall|j: int| 0 <= j < self.data@.skip(self.offset as int).len() implies
                #[trigger] self.data@.skip(self.offset as int)[j] == g.skip(self.offset as int)[j] by {
                assert(self.data@.skip(self.offset as int)[j] == before_copy.skip(self.offset as int)[j]);
                assert(before_copy.skip(self.offset as int)[j] == before_copy[self.offset + j]);
                assert(before_copy.skip(off1)[self.offset + j - off1] == g.skip(off1)[self.offset + j - off1]);
            }
        }
        if nul_terminate {
            let ghost before = self.data@;
            let o = self.offset;
            self.data.set(o, 0u8);
            self.offset = o + 1;
            assert(self.data@.take(o + 1) =~= before.take(o as int).push(0u8));
            assert(self.data@.skip(o + 1) =~= before.skip(o + 1));
            assert(self.data@.skip(o + 1) =~= g.skip(o + 1)) by {
                assert forall|j: int| 0 <= j < self.data@.skip(o + 1).len() implies
                    #[trigger] self.data@.skip(o + 1)[j] == g.skip(o + 1)[j] by {
                    assert(before.skip(o as int)[j + 1] == g.skip(o as int)[j + 1]);
                }
            }
        }
        proof {
            assert(self.written() =~= start + sb);
            assert(self.data@ =~= self.written() + g.skip(self.offset as int));
        }
        head + n
    }
}

} // verus!
