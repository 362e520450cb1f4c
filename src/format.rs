use vstd::prelude::*;

use crate::bytes::{parse_cstr, parse_u32, is_first_nul, nul_index};
use crate::error::VdfError;
use crate::keyvalue::{insert_entry, Kv};

verus! {

/// Field tag of a nested map.
pub const TAG_MAP: u8 = 0x00;

/// Field tag of a NUL-terminated string.
pub const TAG_STRING: u8 = 0x01;

/// Field tag of a 32-bit unsigned integer.
pub const TAG_UINT32: u8 = 0x02;

/// Tag that closes a map.
pub const TAG_END: u8 = 0x08;

/// The view of a string table, when keys are indices into one.
pub open spec fn table_view(table: Option<&Vec<String>>) -> Option<Seq<Seq<char>>> {
    match table {
        Some(t) => Some(t@.map_values(|s: String| s@)),
        None => None,
    }
}

/// The key at `pos`: a NUL-terminated string, or with a table a 4-byte index into it.
pub open spec fn parse_key(b: Seq<u8>, pos: int, table: Option<Seq<Seq<char>>>) -> Result<
    (Seq<char>, int),
    VdfError,
> {
    match table {
        None => parse_cstr(b, pos),
        Some(t) => match parse_u32(b, pos) {
            Ok((i, end)) => if (i as int) < t.len() {
                Ok((t[i as int], end))
            } else {
                Err(VdfError::InvalidStringTableIndex)
            },
            Err(e) => Err(e),
        },
    }
}

pub proof fn lemma_key_advances(b: Seq<u8>, pos: int, table: Option<Seq<Seq<char>>>)
    ensures
        parse_key(b, pos, table) matches Ok((_, end)) ==> pos < end <= b.len(),
{
    if table is None && exists|k: int| is_first_nul(b, pos, k) {
        let k = nul_index(b, pos);
        assert(is_first_nul(b, pos, k));
    }
}

/// The entries of the map whose fields start at `pos`, stored into `acc` in read order,
/// and the position just past its end tag.
pub open spec fn parse_entries(
    b: Seq<u8>,
    pos: int,
    table: Option<Seq<Seq<char>>>,
    acc: Seq<(Seq<char>, Kv)>,
) -> Result<(Seq<(Seq<char>, Kv)>, int), VdfError>
    decreases b.len() - pos, 0int,
{
    if pos < 0 || pos >= b.len() {
        Err(VdfError::TruncatedInput)
    } else if b[pos] == TAG_END {
        Ok((acc, pos + 1))
    } else {
        match parse_key(b, pos + 1, table) {
            Err(e) => Err(e),
            Ok((key, p)) => {
                proof {
                    lemma_key_advances(b, pos + 1, table);
                }
                match parse_value(b, p, b[pos], table) {
                    Err(e) => Err(e),
                    Ok((v, q)) => if pos < q <= b.len() {
                        parse_entries(b, q, table, insert_entry(acc, key, v))
                    } else {
                        Err(VdfError::TruncatedInput)
                    },
                }
            },
        }
    }
}

/// The value of a field with tag `tag` whose payload starts at `pos`, and the position
/// just past it.
pub open spec fn parse_value(b: Seq<u8>, pos: int, tag: u8, table: Option<Seq<Seq<char>>>) -> Result<
    (Kv, int),
    VdfError,
>
    decreases b.len() - pos, 1int,
{
    if tag == TAG_MAP {
        match parse_entries(b, pos, table, Seq::empty()) {
            Ok((m, q)) => Ok((Kv::Object(m), q)),
            Err(e) => Err(e),
        }
    } else if tag == TAG_STRING {
        match parse_cstr(b, pos) {
            Ok((s, q)) => Ok((Kv::Text(s), q)),
            Err(e) => Err(e),
        }
    } else if tag == TAG_UINT32 {
        match parse_u32(b, pos) {
            Ok((n, q)) => Ok((Kv::UInt32(n), q)),
            Err(e) => Err(e),
        }
    } else {
        Err(VdfError::UnexpectedFieldTag)
    }
}

/// The map whose fields start at `pos`.
pub open spec fn parse_map(b: Seq<u8>, pos: int, table: Option<Seq<Seq<char>>>) -> Result<
    (Seq<(Seq<char>, Kv)>, int),
    VdfError,
> {
    parse_entries(b, pos, table, Seq::empty())
}

/// With a string table every key is one of the table's strings, read as a 4-byte index;
/// without one every key is an inline string.
pub proof fn lemma_key_modes(b: Seq<u8>, pos: int, t: Seq<Seq<char>>)
    ensures
        parse_key(b, pos, Some(t)) matches Ok((k, end)) ==> end == pos + 4 && exists|i: int|
            0 <= i < t.len() && t[i] == k,
        parse_key(b, pos, None) == parse_cstr(b, pos),
{
    if parse_key(b, pos, Some(t)) is Ok {
        let i = parse_u32(b, pos)->Ok_0.0;
        assert(0 <= i < t.len());
    }
}

/// A field tag other than map, string, uint32 or end-of-map fails decoding with
/// `UnexpectedFieldTag` once the key after it has been read; it is never skipped.
pub proof fn lemma_unknown_tag(b: Seq<u8>, pos: int, table: Option<Seq<Seq<char>>>, acc: Seq<(Seq<char>, Kv)>)
    requires
        0 <= pos < b.len(),
        b[pos] != TAG_MAP && b[pos] != TAG_STRING && b[pos] != TAG_UINT32 && b[pos] != TAG_END,
        parse_key(b, pos + 1, table) is Ok,
    ensures
        parse_entries(b, pos, table, acc) == Err::<(Seq<(Seq<char>, Kv)>, int), VdfError>(
            VdfError::UnexpectedFieldTag,
        ),
{
    let p = parse_key(b, pos + 1, table)->Ok_0.1;
    assert(parse_value(b, p, b[pos], table) == Err::<(Kv, int), VdfError>(VdfError::UnexpectedFieldTag));
}

/// Every key of `m`, at every depth, is one of the strings of `t`.
pub open spec fn keys_from(m: Seq<(Seq<char>, Kv)>, t: Seq<Seq<char>>) -> bool
    decreases m,
{
    if m.len() == 0 {
        true
    } else {
        proof {
            vstd::seq::axiom_seq_subrange_decreases(m, 0, m.len() - 1);
            vstd::seq::axiom_seq_index_decreases(m, m.len() - 1);
        }
        &&& keys_from(m.drop_last(), t)
        &&& t.contains(m.last().0)
        &&& value_keys_from(m.last().1, t)
    }
}

/// Every key inside `v`, at every depth, is one of the strings of `t`.
pub open spec fn value_keys_from(v: Kv, t: Seq<Seq<char>>) -> bool
    decreases v,
{
    match v {
        Kv::Object(inner) => keys_from(inner, t),
        _ => true,
    }
}

pub proof fn lemma_keys_from_forall(m: Seq<(Seq<char>, Kv)>, t: Seq<Seq<char>>)
    ensures
        keys_from(m, t) <==> forall|i: int|
            0 <= i < m.len() ==> t.contains(#[trigger] m[i].0) && value_keys_from(m[i].1, t),
    decreases m.len(),
{
    if m.len() > 0 {
        lemma_keys_from_forall(m.drop_last(), t);
        if forall|i: int| 0 <= i < m.len() ==> t.contains(#[trigger] m[i].0) && value_keys_from(m[i].1, t) {
            assert forall|i: int| 0 <= i < m.drop_last().len() implies t.contains(#[trigger] m.drop_last()[i].0)
                && value_keys_from(m.drop_last()[i].1, t) by {
                assert(m.drop_last()[i] == m[i]);
            }
            assert(m.last() == m[m.len() - 1]);
        }
        if keys_from(m, t) {
            assert forall|i: int| 0 <= i < m.len() implies t.contains(#[trigger] m[i].0) && value_keys_from(m[i].1, t) by {
                if i < m.len() - 1 {
                    assert(m.drop_last()[i] == m[i]);
                    assert(t.contains(m.drop_last()[i].0));
                } else {
                    assert(m.last() == m[i]);
                }
            }
        }
    }
}

proof fn lemma_insert_keys_from(acc: Seq<(Seq<char>, Kv)>, k: Seq<char>, v: Kv, t: Seq<Seq<char>>)
    requires
        keys_from(acc, t),
        t.contains(k),
        value_keys_from(v, t),
    ensures
        keys_from(insert_entry(acc, k, v), t),
{
    lemma_keys_from_forall(acc, t);
    let r = insert_entry(acc, k, v);
    lemma_keys_from_forall(r, t);
    if exists|j: int| crate::keyvalue::first_key_at(acc, k, j) {
        let j = choose|j: int| crate::keyvalue::first_key_at(acc, k, j);
        assert(r == acc.update(j, (k, v)));
        assert forall|i: int| 0 <= i < r.len() implies t.contains(#[trigger] r[i].0) && value_keys_from(r[i].1, t) by {
            if i != j {
                assert(r[i] == acc[i]);
                assert(t.contains(acc[i].0));
            }
        }
    } else {
        assert(r == acc.push((k, v)));
        assert forall|i: int| 0 <= i < r.len() implies t.contains(#[trigger] r[i].0) && value_keys_from(r[i].1, t) by {
            if i < acc.len() {
                assert(r[i] == acc[i]);
                assert(t.contains(acc[i].0));
            }
        }
    }
}

/// With a string table, every key that a decoded map holds, at every depth, is a string of
/// the table: no key is read inline.
pub proof fn lemma_indexed_keys_from_table(b: Seq<u8>, pos: int, t: Seq<Seq<char>>, acc: Seq<(Seq<char>, Kv)>)
    requires
        keys_from(acc, t),
    ensures
        parse_entries(b, pos, Some(t), acc) matches Ok((m, _)) ==> keys_from(m, t),
    decreases b.len() - pos, 0int,
{
    if 0 <= pos < b.len() && b[pos] != TAG_END {
        lemma_key_advances(b, pos + 1, Some(t));
        lemma_key_modes(b, pos + 1, t);
        if let Ok((key, p)) = parse_key(b, pos + 1, Some(t)) {
            let i = choose|i: int| 0 <= i < t.len() && t[i] == key;
            assert(t.contains(key)) by {
                assert(t[i] == key);
            }
            lemma_indexed_value_keys(b, p, b[pos], t);
            if let Ok((v, q)) = parse_value(b, p, b[pos], Some(t)) {
                if pos < q <= b.len() {
                    lemma_insert_keys_from(acc, key, v, t);
                    lemma_indexed_keys_from_table(b, q, t, insert_entry(acc, key, v));
                }
            }
        }
    }
}

proof fn lemma_indexed_value_keys(b: Seq<u8>, pos: int, tag: u8, t: Seq<Seq<char>>)
    ensures
        parse_value(b, pos, tag, Some(t)) matches Ok((v, _)) ==> value_keys_from(v, t),
    decreases b.len() - pos, 1int,
{
    if tag == TAG_MAP {
        lemma_indexed_keys_from_table(b, pos, t, Seq::empty());
    }
}

} // verus!
