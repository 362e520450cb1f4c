use vstd::prelude::*;

verus! {

/// `256` to the power `n`: the number of values that `n` bytes can hold.
pub open spec fn pow256(n: nat) -> nat
    decreases n,
{
    if n == 0 {
        1
    } else {
        256 * pow256((n - 1) as nat)
    }
}

/// The unsigned value of bytes stored least significant first.
pub open spec fn le_value(b: Seq<u8>) -> nat
    decreases b.len(),
{
    if b.len() == 0 {
        0
    } else {
        b[0] as nat + 256 * le_value(b.drop_first())
    }
}

/// The unsigned value of bytes stored most significant first.
pub open spec fn be_value(b: Seq<u8>) -> nat
    decreases b.len(),
{
    if b.len() == 0 {
        0
    } else {
        be_value(b.drop_last()) * 256 + b.last() as nat
    }
}

/// The unsigned value of `b`; `little` selects little-endian order.
pub open spec fn uint_value(b: Seq<u8>, little: bool) -> nat {
    if little {
        le_value(b)
    } else {
        be_value(b)
    }
}

/// The two's complement value of `b`.
pub open spec fn int_value(b: Seq<u8>, little: bool) -> int {
    let u = uint_value(b, little);
    if 2 * u >= pow256(b.len()) {
        u - pow256(b.len())
    } else {
        u as int
    }
}

/// The `n` bytes of `v` (taken modulo `256^n`), least significant first.
pub open spec fn le_bytes(v: nat, n: nat) -> Seq<u8>
    decreases n,
{
    if n == 0 {
        Seq::empty()
    } else {
        seq![(v % 256) as u8] + le_bytes(v / 256, (n - 1) as nat)
    }
}

/// The `n` bytes of `v` (taken modulo `256^n`), most significant first.
pub open spec fn be_bytes(v: nat, n: nat) -> Seq<u8>
    decreases n,
{
    if n == 0 {
        Seq::empty()
    } else {
        be_bytes(v / 256, (n - 1) as nat).push((v % 256) as u8)
    }
}

/// The `n` bytes of `v`; `little` selects little-endian order.
pub open spec fn uint_bytes(v: nat, n: nat, little: bool) -> Seq<u8> {
    if little {
        le_bytes(v, n)
    } else {
        be_bytes(v, n)
    }
}

/// The `n` bytes of the two's complement form of `v`.
pub open spec fn int_bytes(v: int, n: nat, little: bool) -> Seq<u8> {
    if v < 0 {
        uint_bytes((v + pow256(n)) as nat, n, little)
    } else {
        uint_bytes(v as nat, n, little)
    }
}

pub proof fn lemma_pow256_pos(n: nat)
    ensures
        pow256(n) >= 1,
    decreases n,
{
    if n > 0 {
        lemma_pow256_pos((n - 1) as nat);
    }
}

pub proof fn lemma_pow256_mono(a: nat, b: nat)
    requires
        a <= b,
    ensures
        pow256(a) <= pow256(b),
    decreases b,
{
    if a < b {
        lemma_pow256_mono(a, (b - 1) as nat);
        lemma_pow256_pos((b - 1) as nat);
    }
}

pub proof fn lemma_le_bytes_len(v: nat, n: nat)
    ensures
        le_bytes(v, n).len() == n,
    decreases n,
{
    if n > 0 {
        lemma_le_bytes_len(v / 256, (n - 1) as nat);
    }
}

pub proof fn lemma_be_bytes_len(v: nat, n: nat)
    ensures
        be_bytes(v, n).len() == n,
    decreases n,
{
    if n > 0 {
        lemma_be_bytes_len(v / 256, (n - 1) as nat);
    }
}

/// Little-endian bytes read back as the value they were made from.
pub proof fn lemma_le_round_trip(v: nat, n: nat)
    requires
        v < pow256(n),
    ensures
        le_value(le_bytes(v, n)) == v,
    decreases n,
{
    if n > 0 {
        let rest = le_bytes(v / 256, (n - 1) as nat);
        assert(v / 256 < pow256((n - 1) as nat)) by (nonlinear_arith)
            requires
                v < 256 * pow256((n - 1) as nat),
        ;
        lemma_le_round_trip(v / 256, (n - 1) as nat);
        let b = le_bytes(v, n);
        assert(b.drop_first() =~= rest);
        assert(b[0] == (v % 256) as u8);
    } else {
        assert(le_bytes(v, n) =~= Seq::<u8>::empty());
    }
}

/// Big-endian bytes read back as the value they were made from.
pub proof fn lemma_be_round_trip(v: nat, n: nat)
    requires
        v < pow256(n),
    ensures
        be_value(be_bytes(v, n)) == v,
    decreases n,
{
    if n > 0 {
        let rest = be_bytes(v / 256, (n - 1) as nat);
        assert(v / 256 < pow256((n - 1) as nat)) by (nonlinear_arith)
            requires
                v < 256 * pow256((n - 1) as nat),
        ;
        lemma_be_round_trip(v / 256, (n - 1) as nat);
        let b = be_bytes(v, n);
        assert(b.drop_last() =~= rest);
    } else {
        assert(be_bytes(v, n) =~= Seq::<u8>::empty());
    }
}

pub proof fn lemma_le_value_bound(b: Seq<u8>)
    ensures
        le_value(b) < pow256(b.len()),
    decreases b.len(),
{
    if b.len() > 0 {
        lemma_le_value_bound(b.drop_first());
        let r = le_value(b.drop_first());
        let p = pow256((b.len() - 1) as nat);
        assert(b[0] as nat + 256 * r < 256 * p) by (nonlinear_arith)
            requires
                r < p,
                b[0] < 256,
        ;
    }
}

pub proof fn lemma_be_value_bound(b: Seq<u8>)
    ensures
        be_value(b) < pow256(b.len()),
    decreases b.len(),
{
    if b.len() > 0 {
        lemma_be_value_bound(b.drop_last());
        let r = be_value(b.drop_last());
        let p = pow256((b.len() - 1) as nat);
        assert(r * 256 + (b.last() as nat) < 256 * p) by (nonlinear_arith)
            requires
                r < p,
                b.last() < 256,
        ;
    }
}


/// `k` is the first NUL byte of `b` at or after `pos`.
pub open spec fn is_first_nul(b: Seq<u8>, pos: int, k: int) -> bool {
    &&& 0 <= pos <= k < b.len()
    &&& b[k] == 0
    &&& forall|j: int| pos <= j < k ==> b[j] != 0
}

/// Where the NUL-terminated string that starts at `pos` ends.
pub open spec fn nul_index(b: Seq<u8>, pos: int) -> int {
    choose|k: int| is_first_nul(b, pos, k)
}

/// A string read from `b` at `pos` up to the next NUL byte, and the position just past
/// that NUL.
pub open spec fn parse_cstr(b: Seq<u8>, pos: int) -> Result<(Seq<char>, int), crate::error::VdfError> {
    if exists|k: int| is_first_nul(b, pos, k) {
        let k = nul_index(b, pos);
        let raw = b.subrange(pos, k);
        if vstd::utf8::valid_utf8(raw) {
            Ok((vstd::utf8::decode_utf8(raw), k + 1))
        } else {
            Err(crate::error::VdfError::InvalidText)
        }
    } else {
        Err(crate::error::VdfError::TruncatedInput)
    }
}

/// A little-endian `u32` read from `b` at `pos`, and the position just past it.
pub open spec fn parse_u32(b: Seq<u8>, pos: int) -> Result<(u32, int), crate::error::VdfError> {
    if 0 <= pos && pos + 4 <= b.len() {
        Ok((le_value(b.subrange(pos, pos + 4)) as u32, pos + 4))
    } else {
        Err(crate::error::VdfError::TruncatedInput)
    }
}

pub proof fn lemma_first_nul_unique(b: Seq<u8>, pos: int, k1: int, k2: int)
    requires
        is_first_nul(b, pos, k1),
        is_first_nul(b, pos, k2),
    ensures
        k1 == k2,
{
}

pub proof fn lemma_le_value_single(s: Seq<u8>)
    requires
        s.len() == 1,
    ensures
        le_value(s) == s[0],
{
    reveal_with_fuel(le_value, 2);
    assert(s.drop_first().len() == 0);
}

pub proof fn lemma_int_value_range(b: Seq<u8>, little: bool)
    ensures
        -pow256(b.len()) <= 2 * int_value(b, little) < pow256(b.len()),
{
    lemma_le_value_bound(b);
    lemma_be_value_bound(b);
}

/// The writer and the reader mirror each other: the `n` bytes that a value below `256^n`
/// is written as, in either byte order, read back as that value.
pub proof fn lemma_uint_round_trip(v: nat, n: nat, little: bool)
    requires
        v < pow256(n),
    ensures
        uint_value(uint_bytes(v, n, little), little) == v,
{
    if little {
        lemma_le_round_trip(v, n);
    } else {
        lemma_be_round_trip(v, n);
    }
}

} // verus!
