use vstd::prelude::*;

use crate::bytes::lemma_le_value_single;
use crate::error::VdfError;
use crate::format::{
    lemma_key_advances, parse_entries, parse_key, parse_map, parse_value, table_view, TAG_END,
    TAG_MAP, TAG_STRING, TAG_UINT32,
};
use crate::keyvalue::{entries_view, insert_entry_exec, KeyValue};
use crate::reader::Reader;

verus! {

/// Reads a key: an inline NUL-terminated string, or with `table` a 4-byte index into it.
fn read_key(reader: &mut Reader, table: Option<&Vec<String>>) -> (r: Result<String, VdfError>)
    requires
        old(reader).wf(),
    ensures
        final(reader).wf(),
        final(reader).bytes() == old(reader).bytes(),
        match parse_key(old(reader).bytes(), old(reader).pos(), table_view(table)) {
            Ok((k, end)) => (r matches Ok(s) && s@ == k && final(reader).pos() == end),
            Err(e) => r == Err::<String, VdfError>(e),
        },
{
    match table {
        None => reader.read_string(None),
        Some(t) => {
            let i = reader.read_uint32(true)?;
            if (i as usize) < t.len() {
                Ok(t[i as usize].clone())
            } else {
                Err(VdfError::InvalidStringTableIndex)
            }
        },
    }
}

/// Reads the fields of a map up to and including its end tag.
pub fn read_entry_map(reader: &mut Reader, table: Option<&Vec<String>>) -> (r: Result<
    Vec<(String, KeyValue)>,
    VdfError,
>)
    requires
        old(reader).wf(),
    ensures
        final(reader).wf(),
        final(reader).bytes() == old(reader).bytes(),
        match parse_map(old(reader).bytes(), old(reader).pos(), table_view(table)) {
            Ok((m, end)) => (r matches Ok(v) && entries_view(v@) == m && final(reader).pos() == end),
            Err(e) => r == Err::<Vec<(String, KeyValue)>, VdfError>(e),
        },
        r is Ok ==> final(reader).pos() > old(reader).pos(),
    decreases old(reader).bytes().len() - old(reader).pos(), 0int,
{
    let ghost b = reader.bytes();
    let ghost start = reader.pos();
    let ghost tv = table_view(table);
    let mut entries: Vec<(String, KeyValue)> = Vec::new();
    assert(entries_view(entries@) =~= Seq::empty());
    loop
        invariant
            reader.wf(),
            reader.bytes() == b,
            b == old(reader).bytes(),
            start == old(reader).pos(),
            start <= reader.pos(),
            tv == table_view(table),
            b.len() - reader.pos() <= b.len() - start,
            parse_map(b, start, tv) == parse_entries(b, reader.pos(), tv, entries_view(entries@)),
        decreases b.len() - reader.pos(),
    {
        let ghost pos = reader.pos();
        proof {
            if pos < b.len() {
                lemma_le_value_single(b.subrange(pos, pos + 1));
            }
        }
        let tag = reader.read_uint8(true)?;
        if tag == TAG_END {
            return Ok(entries);
        }
        proof {
            lemma_key_advances(b, pos + 1, tv);
        }
        let key = read_key(reader, table)?;
        let value = read_entry_field(reader, tag, table)?;
        insert_entry_exec(&mut entries, key, value);
    }
}

/// Reads the payload of a field with tag `field_type`.
pub fn read_entry_field(reader: &mut Reader, field_type: u8, table: Option<&Vec<String>>) -> (r:
    Result<KeyValue, VdfError>)
    requires
        old(reader).wf(),
    ensures
        final(reader).wf(),
        final(reader).bytes() == old(reader).bytes(),
        match parse_value(old(reader).bytes(), old(reader).pos(), field_type, table_view(table)) {
            Ok((v, end)) => (r matches Ok(x) && x.view_kv() == v && final(reader).pos() == end),
            Err(e) => r == Err::<KeyValue, VdfError>(e),
        },
        r is Ok ==> final(reader).pos() > old(reader).pos(),
    decreases old(reader).bytes().len() - old(reader).pos(), 1int,
{
    if field_type == TAG_MAP {
        let m = read_entry_map(reader, table)?;
        Ok(KeyValue::Object(m))
    } else if field_type == TAG_STRING {
        let s = reader.read_string(None)?;
        Ok(KeyValue::Text(s))
    } else if field_type == TAG_UINT32 {
        let n = reader.read_uint32(true)?;
        Ok(KeyValue::UInt32(n))
    } else {
        Err(VdfError::UnexpectedFieldTag)
    }
}

} // verus!
