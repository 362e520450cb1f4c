use vstd::prelude::*;

use crate::bytes::{
    be_value, int_value, is_first_nul, le_value, lemma_first_nul_unique, lemma_pow256_mono, nul_index,
    parse_cstr, pow256, uint_value,
};
use crate::error::VdfError;

verus! {

/// Where a seek counts from.
#[derive(Debug, Clone, Copy, PartialEq, Eq, Structural)]
pub enum SeekMode {
    /// From the start of the buffer.
    Absolute,
    /// Forward from the current offset.
    Forward,
    /// Back from the end of the buffer.
    FromEnd,
}

/// The offset that a seek aims at, before it is checked against the buffer.
pub open spec fn seek_target(pos: int, len: int, offset: int, mode: SeekMode) -> int {
    match mode {
        SeekMode::Absolute => offset,
        SeekMode::Forward => pos + offset,
        SeekMode::FromEnd => len - offset,
    }
}

/// Relies on `String::from_utf8`: it accepts exactly the valid UTF-8 byte sequences and
/// decodes them.
#[verifier::external_body]
fn utf8_text(bytes: Vec<u8>) -> (r: Option<String>)
    ensures
        r is Some <==> vstd::utf8::valid_utf8(bytes@),
        r matches Some(s) ==> s@ == vstd::utf8::decode_utf8(bytes@),
{
    String::from_utf8(bytes).ok()
}

/// A cursor over an immutable byte buffer.
pub struct Reader<'a> {
    data: &'a [u8],
    offset: usize,
    length: u64,
}

impl<'a> Reader<'a> {
    /// The bytes under the cursor.
    pub closed spec fn bytes(&self) -> Seq<u8> {
        self.data@
    }

    /// The current offset.
    pub closed spec fn pos(&self) -> int {
        self.offset as int
    }

    /// The stored length is the buffer's.
    pub closed spec fn inv(&self) -> bool {
        self.length == self.data@.len()
    }

    pub open spec fn wf(&self) -> bool {
        &&& self.inv()
        &&& 0 <= self.pos() <= self.bytes().len()
    }

    pub fn get_data(&self) -> (r: &'a [u8])
        ensures
            r@ == self.bytes(),
    {
        self.data
    }

    pub fn get_offset(&self) -> (r: usize)
        ensures
            r == self.pos(),
    {
        self.offset
    }

    pub fn get_length(&self) -> (r: u64)
        requires
            self.wf(),
        ensures
            r == self.bytes().len(),
    {
        self.length
    }

    pub fn new(buf: &'a [u8]) -> (r: Reader<'a>)
        ensures
            r.wf(),
            r.bytes() == buf@,
            r.pos() == 0,
    {
        Reader { data: buf, offset: 0, length: buf.len() as u64 }
    }

    /// Moves the cursor; a target outside the buffer leaves it where it was.
    pub fn seek(&mut self, offset: usize, mode: SeekMode) -> (r: Result<(), VdfError>)
        requires
            old(self).wf(),
        ensures
            final(self).wf(),
            final(self).bytes() == old(self).bytes(),
            ({
                let t = seek_target(old(self).pos(), old(self).bytes().len() as int, offset as int, mode);
                if 0 <= t <= old(self).bytes().len() {
                    r is Ok && final(self).pos() == t
                } else {
                    r == Err::<(), VdfError>(VdfError::TruncatedInput) && final(self).pos() == old(self).pos()
                }
            }),
    {
        let len = self.data.len();
        match mode {
            SeekMode::Absolute => {
                if offset <= len {
                    self.offset = offset;
                    Ok(())
                } else {
                    Err(VdfError::TruncatedInput)
                }
            },
            SeekMode::Forward => {
                if offset <= len - self.offset {
                    self.offset = self.offset + offset;
                    Ok(())
                } else {
                    Err(VdfError::TruncatedInput)
                }
            },
            SeekMode::FromEnd => {
                if offset <= len {
                    self.offset = len - offset;
                    Ok(())
                } else {
                    Err(VdfError::TruncatedInput)
                }
            },
        }
    }

    pub fn remaining(&self) -> (r: u64)
        requires
            self.wf(),
        ensures
            r == self.bytes().len() - self.pos(),
    {
        self.length - self.offset as u64
    }

    /// Reads `width` bytes as an unsigned integer.
    fn read_i(&mut self, width: usize, little: bool) -> (r: Result<u64, VdfError>)
        requires
            old(self).wf(),
            1 <= width <= 8,
        ensures
            final(self).wf(),
            final(self).bytes() == old(self).bytes(),
            old(self).pos() + width <= old(self).bytes().len() ==> {
                &&& r == Ok::<u64, VdfError>(
                    uint_value(old(self).bytes().subrange(old(self).pos(), old(self).pos() + width), little) as u64,
                )
                &&& uint_value(old(self).bytes().subrange(old(self).pos(), old(self).pos() + width), little) < pow256(width as nat)
                &&& final(self).pos() == old(self).pos() + width
            },
            old(self).pos() + width > old(self).bytes().len() ==> {
                &&& r == Err::<u64, VdfError>(VdfError::TruncatedInput)
                &&& final(self).pos() == old(self).pos()
            },
    {
        if width > self.data.len() - self.offset {
            return Err(VdfError::TruncatedInput);
        }
        let start = self.offset;
        let len = self.data.len();
        let ghost b = self.data@;
        let mut v: u64 = 0;
        proof {
            reveal_with_fuel(pow256, 9);
            lemma_pow256_mono(width as nat, 8);
        }
        if little {
            let mut i: usize = width;
            while i > 0
                invariant
                    b == self.data@,
                    b.len() == len,
                    start + width <= b.len(),
                    0 <= i <= width <= 8,
                    v == le_value(b.subrange(start + i, start + width)),
                    v < pow256((width - i) as nat),
                    pow256(width as nat) <= pow256(8),
                    pow256(8) == 0x1_0000_0000_0000_0000,
                decreases i,
            {
                let byte = self.data[start + i - 1];
                proof {
                    let s = b.subrange(start + i - 1, start + width);
                    assert(s.drop_first() =~= b.subrange(start + i, start + width));
                    let p = pow256((width - i) as nat);
                    assert(v * 256 + byte < 256 * p) by (nonlinear_arith)
                        requires
                            v < p,
                            byte < 256,
                    ;
                    assert(pow256((width - i + 1) as nat) == 256 * p);
                    lemma_pow256_mono((width - i + 1) as nat, 8);
                }
                v = v * 256 + byte as u64;
                i = i - 1;
            }
        } else {
            let mut i: usize = 0;
            while i < width
                invariant
                    b == self.data@,
                    b.len() == len,
                    start + width <= b.len(),
                    0 <= i <= width <= 8,
                    v == be_value(b.subrange(start as int, start + i)),
                    v < pow256(i as nat),
                    pow256(width as nat) <= pow256(8),
                    pow256(8) == 0x1_0000_0000_0000_0000,
                decreases width - i,
            {
                let byte = self.data[start + i];
                proof {
                    let s = b.subrange(start as int, start + i + 1);
                    assert(s.drop_last() =~= b.subrange(start as int, start + i));
                    let p = pow256(i as nat);
                    assert(v * 256 + byte < 256 * p) by (nonlinear_arith)
                        requires
                            v < p,
                            byte < 256,
                    ;
                    assert(pow256((i + 1) as nat) == 256 * p);
                    lemma_pow256_mono((i + 1) as nat, 8);
                }
                v = v * 256 + byte as u64;
                i = i + 1;
            }
        }
        self.offset = start + width;
        Ok(v)
    }

    /// The `n` bytes at the cursor.
    pub open spec fn window(&self, n: int) -> Seq<u8> {
        self.bytes().subrange(self.pos(), self.pos() + n)
    }

    /// The buffer holds `n` more bytes at the cursor.
    pub open spec fn fits(&self, n: int) -> bool {
        self.pos() + n <= self.bytes().len()
    }

    /// The reads of an `n`-byte value: the cursor moves past it, or nothing happens.
    pub open spec fn read_outcome<T>(&self, after: &Self, n: int, r: Result<T, VdfError>, v: T) -> bool {
        &&& after.wf()
        &&& after.bytes() == self.bytes()
        &&& self.fits(n) ==> r == Ok::<T, VdfError>(v) && after.pos() == self.pos() + n
        &&& !self.fits(n) ==> r == Err::<T, VdfError>(VdfError::TruncatedInput) && after.pos() == self.pos()
    }

    pub fn read_char(&mut self, endianness: bool) -> (r: Result<char, VdfError>)
        requires
            old(self).wf(),
        ensures
            old(self).read_outcome(final(self), 1, r, (le_value(old(self).window(1)) as u8) as char),
    {
        let b = self.read_uint8(endianness)?;
        Ok(b as char)
    }

    pub fn read_uint8(&mut self, endianness: bool) -> (r: Result<u8, VdfError>)
        requires
            old(self).wf(),
        ensures
            old(self).read_outcome(final(self), 1, r, le_value(old(self).window(1)) as u8),
    {
        proof {
            reveal_with_fuel(pow256, 2);
            reveal_with_fuel(be_value, 2);
            reveal_with_fuel(le_value, 2);
        }
        let v = self.read_i(1, endianness)?;
        Ok(v as u8)
    }

    pub fn read_uint16(&mut self, endianness: bool) -> (r: Result<u16, VdfError>)
        requires
            old(self).wf(),
        ensures
            old(self).read_outcome(final(self), 2, r, uint_value(old(self).window(2), endianness) as u16),
    {
        proof {
            reveal_with_fuel(pow256, 3);
        }
        let v = self.read_i(2, endianness)?;
        Ok(v as u16)
    }

    pub fn read_uint32(&mut self, endianness: bool) -> (r: Result<u32, VdfError>)
        requires
            old(self).wf(),
        ensures
            old(self).read_outcome(final(self), 4, r, uint_value(old(self).window(4), endianness) as u32),
    {
        proof {
            reveal_with_fuel(pow256, 5);
        }
        let v = self.read_i(4, endianness)?;
        Ok(v as u32)
    }

    pub fn read_uint64(&mut self, endianness: bool) -> (r: Result<u64, VdfError>)
        requires
            old(self).wf(),
        ensures
            old(self).read_outcome(final(self), 8, r, uint_value(old(self).window(8), endianness) as u64),
    {
        self.read_i(8, endianness)
    }

    pub fn read_int8(&mut self, endianness: bool) -> (r: Result<i8, VdfError>)
        requires
            old(self).wf(),
        ensures
            old(self).read_outcome(final(self), 1, r, int_value(old(self).window(1), endianness) as i8),
    {
        proof {
            reveal_with_fuel(pow256, 2);
        }
        let v = self.read_i(1, endianness)?;
        if v < 0x80 {
            Ok(v as i8)
        } else {
            Ok((v as i16 - 0x100) as i8)
        }
    }

    pub fn read_int16(&mut self, endianness: bool) -> (r: Result<i16, VdfError>)
        requires
            old(self).wf(),
        ensures
            old(self).read_outcome(final(self), 2, r, int_value(old(self).window(2), endianness) as i16),
    {
        proof {
            reveal_with_fuel(pow256, 3);
        }
        let v = self.read_i(2, endianness)?;
        if v < 0x8000 {
            Ok(v as i16)
        } else {
            Ok((v as i32 - 0x1_0000) as i16)
        }
    }

    pub fn read_int32(&mut self, endianness: bool) -> (r: Result<i32, VdfError>)
        requires
            old(self).wf(),
        ensures
            old(self).read_outcome(final(self), 4, r, int_value(old(self).window(4), endianness) as i32),
    {
        proof {
            reveal_with_fuel(pow256, 5);
        }
        let v = self.read_i(4, endianness)?;
        if v < 0x8000_0000 {
            Ok(v as i32)
        } else {
            Ok((v as i64 - 0x1_0000_0000) as i32)
        }
    }

    pub fn read_int64(&mut self, endianness: bool) -> (r: Result<i64, VdfError>)
        requires
            old(self).wf(),
        ensures
            old(self).read_outcome(final(self), 8, r, int_value(old(self).window(8), endianness) as i64),
    {
        proof {
            reveal_with_fuel(pow256, 9);
        }
        let v = self.read_i(8, endianness)?;
        if v < 0x8000_0000_0000_0000 {
            Ok(v as i64)
        } else {
            Ok((v - 0x8000_0000_0000_0000) as i64 + i64::MIN)
        }
    }

    /// Copies the bytes in `[start, end)` of the buffer.
    fn copy_range(&self, start: usize, end: usize) -> (r: Vec<u8>)
        requires
            start <= end <= self.bytes().len(),
        ensures
            r@ == self.bytes().subrange(start as int, end as int),
    {
        let mut out: Vec<u8> = Vec::new();
        let mut i: usize = start;
        while i < end
            invariant
                start <= i <= end <= self.data@.len(),
                out@ == self.data@.subrange(start as int, i as int),
            decreases end - i,
        {
            out.push(self.data[i]);
            i = i + 1;
            assert(out@ =~= self.data@.subrange(start as int, i as int));
        }
        out
    }

    /// Finds the first NUL byte at or after `start`.
    fn nul_at_or_after(&self, start: usize) -> (r: Option<usize>)
        requires
            self.wf(),
            start <= self.bytes().len(),
        ensures
            match r {
                Some(k) => is_first_nul(self.bytes(), start as int, k as int) && k == nul_index(self.bytes(), start as int)
                    && k < usize::MAX,
                None => !(exists|k: int| is_first_nul(self.bytes(), start as int, k)),
            },
    {
        let len = self.data.len();
        let mut k: usize = start;
        while k < len && self.data[k] != 0
            invariant
                start <= k <= len,
                len == self.data@.len(),
                forall|j: int| start <= j < k ==> self.data@[j] != 0,
            decreases len - k,
        {
            k = k + 1;
        }
        if k == len {
            proof {
                assert forall|m: int| !is_first_nul(self.data@, start as int, m) by {
                    if is_first_nul(self.data@, start as int, m) {
                        assert(self.data@[m] != 0);
                    }
                }
            }
            return None;
        }
        proof {
            assert(is_first_nul(self.data@, start as int, k as int));
            lemma_first_nul_unique(self.data@, start as int, k as int, nul_index(self.data@, start as int));
        }
        Some(k)
    }

    /// Reads the raw bytes up to the next NUL byte, which the cursor then passes. Without
    /// a NUL the cursor stays where it was.
    pub fn read_cstring_bytes(&mut self) -> (r: Result<Vec<u8>, VdfError>)
        requires
            old(self).wf(),
        ensures
            final(self).wf(),
            final(self).bytes() == old(self).bytes(),
            if exists|k: int| is_first_nul(old(self).bytes(), old(self).pos(), k) {
                let k = nul_index(old(self).bytes(), old(self).pos());
                (r matches Ok(v) && v@ == old(self).bytes().subrange(old(self).pos(), k) && final(self).pos() == k + 1)
            } else {
                r == Err::<Vec<u8>, VdfError>(VdfError::TruncatedInput) && final(self).pos() == old(self).pos()
            },
    {
        let start = self.offset;
        match self.nul_at_or_after(start) {
            Some(k) => {
                let raw = self.copy_range(start, k);
                self.offset = k + 1;
                Ok(raw)
            },
            None => Err(VdfError::TruncatedInput),
        }
    }

    /// Reads a string: `length` bytes when given, else the bytes up to the next NUL, which
    /// the cursor then passes. The bytes are decoded as UTF-8. On an error the cursor
    /// stays where it was.
    pub fn read_string(&mut self, length: Option<u32>) -> (r: Result<String, VdfError>)
        requires
            old(self).wf(),
        ensures
            final(self).wf(),
            final(self).bytes() == old(self).bytes(),
            r is Err ==> final(self).pos() == old(self).pos(),
            length is None ==> match parse_cstr(old(self).bytes(), old(self).pos()) {
                Ok((s, end)) => (r matches Ok(t) && t@ == s && final(self).pos() == end),
                Err(e) => r == Err::<String, VdfError>(e),
            },
            length matches Some(n) ==> if old(self).fits(n as int) {
                let raw = old(self).window(n as int);
                if vstd::utf8::valid_utf8(raw) {
                    (r matches Ok(t) && t@ == vstd::utf8::decode_utf8(raw) && final(self).pos() == old(self).pos() + n)
                } else {
                    r == Err::<String, VdfError>(VdfError::InvalidText)
                }
            } else {
                r == Err::<String, VdfError>(VdfError::TruncatedInput)
            },
    {
        let start = self.offset;
        let len = self.data.len();
        let end: usize;
        let next: usize;
        match length {
            Some(n) => {
                if n as usize > len - start {
                    return Err(VdfError::TruncatedInput);
                }
                end = start + n as usize;
                next = end;
            },
            None => {
                let k = match self.nul_at_or_after(start) {
                    Some(k) => k,
                    None => return Err(VdfError::TruncatedInput),
                };
                end = k;
                next = k + 1;
            },
        }
        let raw = self.copy_range(start, end);
        match utf8_text(raw) {
            Some(s) => {
                self.offset = next;
                Ok(s)
            },
            None => Err(VdfError::InvalidText),
        }
    }

    /// A new reader over `length` bytes of this buffer from `offset`, its cursor at their
    /// start.
    pub fn slice(&self, offset: usize, length: usize) -> (r: Result<Reader<'a>, VdfError>)
        requires
            self.wf(),
        ensures
            offset + length <= self.bytes().len() ==> (r matches Ok(s) && s.wf() && s.pos() == 0
                && s.bytes() == self.bytes().subrange(offset as int, offset + length)),
            offset + length > self.bytes().len() ==> r == Err::<Reader<'a>, VdfError>(VdfError::TruncatedInput),
    {
        let len = self.data.len();
        if offset > len || length > len - offset {
            return Err(VdfError::TruncatedInput);
        }
        let sub = &self.data[offset..offset + length];
        Ok(Reader { data: sub, offset: 0, length: length as u64 })
    }
}

} // verus!
