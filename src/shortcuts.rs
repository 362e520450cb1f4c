use vstd::prelude::*;

use crate::bytes::{is_first_nul, le_bytes, lemma_first_nul_unique, lemma_le_bytes_len, nul_index, parse_cstr};
use crate::error::VdfError;
use crate::format::{parse_map, TAG_END, TAG_MAP, TAG_STRING, TAG_UINT32};
use crate::keyvalue::{entries_view, has_key, lemma_entries_view, KeyValue, Kv};
use crate::kv_reader::read_entry_map;
use crate::reader::{Reader, SeekMode};
use crate::writer::{string_bytes, Writer};

verus! {

/// The header that a shortcuts buffer starts with, after one skipped byte: the ASCII
/// bytes of `shortcuts`, compared before any decoding.
pub open spec fn header_bytes() -> Seq<u8> {
    seq![0x73u8, 0x68, 0x6f, 0x72, 0x74, 0x63, 0x75, 0x74, 0x73]
}

/// A string as the format stores it: UTF-8 bytes and a NUL byte.
pub open spec fn cstr_bytes(s: Seq<char>) -> Seq<u8> {
    vstd::utf8::encode_utf8(s).push(0u8)
}

/// The field tag of a value.
pub open spec fn tag_of(v: Kv) -> u8 {
    match v {
        Kv::Object(_) => TAG_MAP,
        Kv::Text(_) => TAG_STRING,
        Kv::UInt32(_) => TAG_UINT32,
    }
}

/// The bytes of one field: its tag, its key, its payload.
pub open spec fn encode_field(k: Seq<char>, v: Kv) -> Seq<u8>
    decreases v,
{
    seq![tag_of(v)] + cstr_bytes(k) + match v {
        Kv::Object(inner) => encode_fields(inner).push(TAG_END),
        Kv::Text(t) => cstr_bytes(t),
        Kv::UInt32(n) => le_bytes(n as nat, 4),
    }
}

/// The bytes of the fields of a map, in their stored order.
pub open spec fn encode_fields(m: Seq<(Seq<char>, Kv)>) -> Seq<u8>
    decreases m,
{
    if m.len() == 0 {
        Seq::empty()
    } else {
        proof {
            vstd::seq::axiom_seq_subrange_decreases(m, 0, m.len() - 1);
            vstd::seq::axiom_seq_index_decreases(m, m.len() - 1);
        }
        encode_fields(m.drop_last()) + encode_field(m.last().0, m.last().1)
    }
}

/// The bytes of a map: its fields and the end tag.
pub open spec fn encode_map(m: Seq<(Seq<char>, Kv)>) -> Seq<u8> {
    encode_fields(m).push(TAG_END)
}

/// A whole shortcuts buffer holding the map `m`.
pub open spec fn shortcuts_bytes(m: Seq<(Seq<char>, Kv)>) -> Seq<u8> {
    seq![TAG_MAP] + header_bytes().push(0u8) + encode_map(m).push(TAG_END)
}

/// What decoding a shortcuts buffer gives.
pub open spec fn shortcuts_spec(b: Seq<u8>) -> Result<Kv, VdfError> {
    if b.len() < 1 || !(exists|k: int| is_first_nul(b, 1, k)) {
        Err(VdfError::TruncatedInput)
    } else if b.subrange(1, nul_index(b, 1)) != header_bytes() {
        Err(VdfError::InvalidHeader)
    } else {
        match parse_map(b, nul_index(b, 1) + 1, None) {
            Ok((m, _)) => Ok(Kv::Object(m)),
            Err(e) => Err(e),
        }
    }
}

/// The header bytes, to compare with.
fn header_vec() -> (r: Vec<u8>)
    ensures
        r@ == header_bytes(),
{
    let r: Vec<u8> = vec![0x73u8, 0x68, 0x6f, 0x72, 0x74, 0x63, 0x75, 0x74, 0x73];
    assert(r@ =~= header_bytes());
    r
}

/// Whether two byte lists are equal.
fn same_bytes(a: &Vec<u8>, b: &Vec<u8>) -> (r: bool)
    ensures
        r == (a@ == b@),
{
    if a.len() != b.len() {
        return false;
    }
    let mut i: usize = 0;
    while i < a.len()
        invariant
            a@.len() == b@.len(),
            0 <= i <= a@.len(),
            forall|j: int| 0 <= j < i ==> a@[j] == b@[j],
        decreases a@.len() - i,
    {
        if a[i] != b[i] {
            return false;
        }
        i = i + 1;
    }
    assert(a@ =~= b@);
    true
}

proof fn lemma_encode_fields_prefix(m: Seq<(Seq<char>, Kv)>, j: int)
    requires
        0 <= j <= m.len(),
    ensures
        encode_fields(m.take(j)).len() <= encode_fields(m).len(),
        encode_fields(m).take(encode_fields(m.take(j)).len() as int) == encode_fields(m.take(j)),
    decreases m.len() - j,
{
    if j == m.len() {
        assert(m.take(j) =~= m);
        assert(encode_fields(m).take(encode_fields(m).len() as int) =~= encode_fields(m));
    } else {
        lemma_encode_fields_prefix(m, j + 1);
        assert(m.take(j + 1).drop_last() =~= m.take(j));
        let a = encode_fields(m.take(j));
        let ab = encode_fields(m.take(j + 1));
        assert(ab == a + encode_field(m[j].0, m[j].1));
        assert(encode_fields(m).take(a.len() as int) =~= ab.take(a.len() as int));
        assert(ab.take(a.len() as int) =~= a);
    }
}

/// Writes the fields of a map and its end tag.
fn write_entry_map(writer: &mut Writer, map: &Vec<(String, KeyValue)>)
    requires
        old(writer).wf(),
        old(writer).pos() + encode_map(entries_view(map@)).len() + 5 <= usize::MAX,
    ensures
        final(writer).wf(),
        final(writer).written() == old(writer).written() + encode_map(entries_view(map@)),
        final(writer).pos() == old(writer).pos() + encode_map(entries_view(map@)).len(),
    decreases map,
{
    let ghost mv = entries_view(map@);
    let ghost start = writer.written();
    let ghost start_pos = writer.pos();
    proof {
        lemma_entries_view(map@);
    }
    let n = map.len();
    let mut i: usize = 0;
    assert(mv.take(0) =~= Seq::empty());
    assert(start + encode_fields(mv.take(0)) =~= start);
    while i < n
        invariant
            writer.wf(),
            n == map@.len(),
            mv == entries_view(map@),
            mv.len() == n,
            forall|j: int| 0 <= j < n ==> #[trigger] mv[j] == (map@[j].0@, map@[j].1.view_kv()),
            0 <= i <= n,
            start_pos + encode_map(mv).len() + 5 <= usize::MAX,
            writer.written() == start + encode_fields(mv.take(i as int)),
            writer.pos() == start_pos + encode_fields(mv.take(i as int)).len(),
        decreases n - i,
    {
        proof {
            lemma_encode_fields_prefix(mv, i + 1);
            assert(mv.take(i + 1).drop_last() =~= mv.take(i as int));
            vstd::std_specs::vec::axiom_vec_index_decreases(*map, i as int);
        }
        write_entry_field(writer, &map[i].0, &map[i].1);
        i = i + 1;
        proof {
            assert(writer.written() =~= start + encode_fields(mv.take(i as int)));
        }
    }
    assert(mv.take(n as int) =~= mv);
    writer.write_uint8(TAG_END, true);
    assert(writer.written() =~= start + encode_map(mv));
}

/// Writes one field: its tag, its key, its payload.
fn write_entry_field(writer: &mut Writer, key: &String, field: &KeyValue)
    requires
        old(writer).wf(),
        old(writer).pos() + encode_field(key@, field.view_kv()).len() + 5 <= usize::MAX,
    ensures
        final(writer).wf(),
        final(writer).written() == old(writer).written() + encode_field(key@, field.view_kv()),
        final(writer).pos() == old(writer).pos() + encode_field(key@, field.view_kv()).len(),
    decreases field,
{
    let ghost start = writer.written();
    let ghost kb = cstr_bytes(key@);
    assert(string_bytes(key@, false, true, true) =~= kb);
    match field {
        KeyValue::UInt32(n) => {
            writer.write_uint8(TAG_UINT32, true);
            writer.write_string(key.clone(), false, true, true);
            writer.write_uint32(*n, true);
            assert(writer.written() =~= start + encode_field(key@, field.view_kv()));
        },
        KeyValue::Text(t) => {
            writer.write_uint8(TAG_STRING, true);
            writer.write_string(key.clone(), false, true, true);
            assert(string_bytes(t@, false, true, true) =~= cstr_bytes(t@));
            writer.write_string(t.clone(), false, true, true);
            assert(writer.written() =~= start + encode_field(key@, field.view_kv()));
        },
        KeyValue::Object(inner) => {
            writer.write_uint8(TAG_MAP, true);
            writer.write_string(key.clone(), false, true, true);
            write_entry_map(writer, inner);
            assert(writer.written() =~= start + encode_field(key@, field.view_kv()));
        },
    }
}

/// Encodes a shortcuts tree into the bytes of a shortcuts file. The root must be a map.
pub fn write_shortcuts(data: &KeyValue) -> (r: Result<Vec<u8>, VdfError>)
    requires
        data.view_kv() matches Kv::Object(m) ==> shortcuts_bytes(m).len() + 5 <= usize::MAX,
    ensures
        match data.view_kv() {
            Kv::Object(m) => (r matches Ok(b) && b@ == shortcuts_bytes(m)),
            _ => r == Err::<Vec<u8>, VdfError>(VdfError::NotAnObject),
        },
{
    match data {
        KeyValue::Object(map) => {
            let ghost mv = entries_view(map@);
            let mut writer = Writer::new(vec![0u8; 1000]);
            writer.write_uint8(TAG_MAP, true);
            let header = header_vec();
            writer.write_bytes(header.as_slice());
            writer.write_uint8(0, true);
            write_entry_map(&mut writer, map);
            writer.write_uint8(TAG_END, true);
            writer.trim();
            assert(writer.buffer() =~= shortcuts_bytes(mv));
            Ok(writer.into_data())
        },
        _ => Err(VdfError::NotAnObject),
    }
}

/// Decodes the bytes of a shortcuts file into its root map.
pub fn read_shortcuts(data: &[u8]) -> (r: Result<KeyValue, VdfError>)
    ensures
        match shortcuts_spec(data@) {
            Ok(v) => (r matches Ok(x) && x.view_kv() == v),
            Err(e) => r == Err::<KeyValue, VdfError>(e),
        },
{
    let mut reader = Reader::new(data);
    reader.seek(1, SeekMode::Absolute)?;
    let header = reader.read_cstring_bytes()?;
    if !same_bytes(&header, &header_vec()) {
        return Err(VdfError::InvalidHeader);
    }
    let map = read_entry_map(&mut reader, None)?;
    Ok(KeyValue::Object(map))
}

/// `s` holds no NUL character, so the format can store it.
pub open spec fn no_nul(s: Seq<char>) -> bool {
    forall|i: int| 0 <= i < s.len() ==> s[i] != '\0'
}

/// The map can be stored and read back: keys are unique within each map and no string
/// holds a NUL character.
pub open spec fn encodable_map(m: Seq<(Seq<char>, Kv)>) -> bool
    decreases m,
{
    if m.len() == 0 {
        true
    } else {
        proof {
            vstd::seq::axiom_seq_subrange_decreases(m, 0, m.len() - 1);
            vstd::seq::axiom_seq_index_decreases(m, m.len() - 1);
        }
        &&& encodable_map(m.drop_last())
        &&& no_nul(m.last().0)
        &&& encodable_value(m.last().1)
        &&& !has_key(m.drop_last(), m.last().0)
    }
}

/// The value can be stored and read back.
pub open spec fn encodable_value(v: Kv) -> bool
    decreases v,
{
    match v {
        Kv::Object(inner) => encodable_map(inner),
        Kv::Text(t) => no_nul(t),
        Kv::UInt32(_) => true,
    }
}

proof fn lemma_encodable_at(m: Seq<(Seq<char>, Kv)>, k: int)
    requires
        encodable_map(m),
        0 <= k < m.len(),
    ensures
        no_nul(m[k].0),
        encodable_value(m[k].1),
        !has_key(m.take(k), m[k].0),
    decreases m.len(),
{
    if k == m.len() - 1 {
        assert(m.drop_last() =~= m.take(k));
    } else {
        lemma_encodable_at(m.drop_last(), k);
        assert(m.drop_last().take(k) =~= m.take(k));
    }
}

proof fn lemma_scalar_nonzero(c: u32)
    requires
        c != 0,
    ensures
        forall|i: int|
            0 <= i < vstd::utf8::encode_scalar(c).len() ==> #[trigger] vstd::utf8::encode_scalar(c)[i] != 0,
{
    let a = ((c >> 6) & 0x1F) as u8;
    let b = ((c >> 12) & 0x0F) as u8;
    let d = ((c >> 18) & 0x7) as u8;
    let e = (c & 0x3F) as u8;
    let f = ((c >> 6) & 0x3F) as u8;
    let g = ((c >> 12) & 0x3F) as u8;
    assert(c != 0 && c <= 0x7F ==> ((c & 0x7F) as u8) != 0) by (bit_vector);
    assert((0xC0u8 | a) != 0u8) by (bit_vector);
    assert((0xE0u8 | b) != 0u8) by (bit_vector);
    assert((0xF0u8 | d) != 0u8) by (bit_vector);
    assert((0x80u8 | e) != 0u8) by (bit_vector);
    assert((0x80u8 | f) != 0u8) by (bit_vector);
    assert((0x80u8 | g) != 0u8) by (bit_vector);
}

proof fn lemma_utf8_nonzero(s: Seq<char>)
    requires
        no_nul(s),
    ensures
        forall|i: int|
            0 <= i < vstd::utf8::encode_utf8(s).len() ==> #[trigger] vstd::utf8::encode_utf8(s)[i] != 0,
    decreases s.len(),
{
    if s.len() > 0 {
        let c = s[0] as u32;
        vstd::utf8::char_u32_cast(s[0], c);
        assert(c != 0) by {
            if c == 0 {
                assert((0u32 as char) == '\0');
            }
        }
        lemma_scalar_nonzero(c);
        assert(no_nul(s.drop_first()));
        lemma_utf8_nonzero(s.drop_first());
        let x = vstd::utf8::encode_scalar(c);
        let y = vstd::utf8::encode_utf8(s.drop_first());
        assert(vstd::utf8::encode_utf8(s) == x + y);
        assert forall|i: int| 0 <= i < (x + y).len() implies #[trigger] (x + y)[i] != 0 by {
            if i < x.len() {
                assert((x + y)[i] == x[i]);
            } else {
                assert((x + y)[i] == y[i - x.len()]);
            }
        }
    }
}

proof fn lemma_parse_cstr_encoded(b: Seq<u8>, p: int, s: Seq<char>)
    requires
        no_nul(s),
        0 <= p,
        p + cstr_bytes(s).len() <= b.len(),
        b.subrange(p, p + cstr_bytes(s).len()) == cstr_bytes(s),
    ensures
        parse_cstr(b, p) == Ok::<(Seq<char>, int), VdfError>((s, p + cstr_bytes(s).len())),
{
    let enc = vstd::utf8::encode_utf8(s);
    let k = p + enc.len();
    lemma_utf8_nonzero(s);
    assert forall|j: int| p <= j < k implies b[j] != 0 by {
        assert(b[j] == b.subrange(p, p + cstr_bytes(s).len())[j - p]);
        assert(cstr_bytes(s)[j - p] == enc[j - p]);
    }
    assert(b[k] == b.subrange(p, p + cstr_bytes(s).len())[k - p]);
    assert(crate::bytes::is_first_nul(b, p, k));
    crate::bytes::lemma_first_nul_unique(b, p, k, crate::bytes::nul_index(b, p));
    assert(b.subrange(p, k) =~= enc);
    vstd::utf8::encode_utf8_valid_utf8(s);
    vstd::utf8::encode_utf8_decode_utf8(s);
}

#[verifier::rlimit(60)]
proof fn lemma_parse_encoded(b: Seq<u8>, pos: int, m: Seq<(Seq<char>, Kv)>, k: int)
    requires
        encodable_map(m),
        0 <= k <= m.len(),
        0 <= pos,
        pos + encode_map(m).len() <= b.len(),
        b.subrange(pos, pos + encode_map(m).len()) == encode_map(m),
    ensures
        crate::format::parse_entries(b, pos + encode_fields(m.take(k)).len(), None, m.take(k)) == Ok::<
            (Seq<(Seq<char>, Kv)>, int),
            VdfError,
        >((m, pos + encode_map(m).len())),
    decreases m, m.len() - k,
{
    let em = encode_map(m);
    let fk = encode_fields(m.take(k));
    let pk = pos + fk.len();
    lemma_encode_fields_prefix(m, k);
    if k == m.len() {
        assert(m.take(k) =~= m);
        assert(b[pk] == em[fk.len() as int]);
        assert(b[pk] == TAG_END);
    } else {
        lemma_encode_fields_prefix(m, k + 1);
        lemma_encodable_at(m, k);
        assert(m.take(k + 1).drop_last() =~= m.take(k));
        let key = m[k].0;
        let v = m[k].1;
        let fb = encode_field(key, v);
        let fk1 = encode_fields(m.take(k + 1));
        assert(fk1 == fk + fb);
        let q = pk + fb.len();
        // the field's bytes stand at `pk`
        assert(b.subrange(pk, q) =~= fb) by {
            assert forall|j: int| 0 <= j < fb.len() implies b.subrange(pk, q)[j] == fb[j] by {
                assert(b[pk + j] == b.subrange(pos, pos + em.len())[fk.len() + j]);
                assert(em[fk.len() + j] == encode_fields(m)[fk.len() + j]);
                assert(encode_fields(m)[fk.len() + j] == encode_fields(m).take(fk1.len() as int)[fk.len() + j]);
                assert(fk1[fk.len() + j] == fb[j]);
            }
        }
        let kb = cstr_bytes(key);
        let pv = pk + 1 + kb.len();
        assert(b[pk] == fb[0]);
        assert(fb[0] == tag_of(v));
        assert(b.subrange(pk + 1, pv) =~= kb) by {
            assert forall|j: int| 0 <= j < kb.len() implies b.subrange(pk + 1, pv)[j] == kb[j] by {
                assert(b[pk + 1 + j] == b.subrange(pk, q)[1 + j]);
                assert(fb[1 + j] == kb[j]);
            }
        }
        lemma_parse_cstr_encoded(b, pk + 1, key);
        let payload = fb.subrange(1 + kb.len() as int, fb.len() as int);
        assert(b.subrange(pv, q) =~= payload) by {
            assert forall|j: int| 0 <= j < payload.len() implies b.subrange(pv, q)[j] == payload[j] by {
                assert(b[pv + j] == b.subrange(pk, q)[1 + kb.len() + j]);
            }
        }
        match v {
            Kv::Object(inner) => {
                assert(payload =~= encode_map(inner));
                vstd::seq::axiom_seq_index_decreases(m, k);
                lemma_parse_encoded(b, pv, inner, 0);
                assert(inner.take(0) =~= Seq::<(Seq<char>, Kv)>::empty());
                assert(encode_fields(inner.take(0)) =~= Seq::<u8>::empty());
            },
            Kv::Text(t) => {
                assert(payload =~= cstr_bytes(t));
                lemma_parse_cstr_encoded(b, pv, t);
            },
            Kv::UInt32(n) => {
                assert(payload =~= le_bytes(n as nat, 4));
                reveal_with_fuel(crate::bytes::pow256, 5);
                crate::bytes::lemma_le_round_trip(n as nat, 4);
                lemma_le_bytes_len(n as nat, 4);
            },
        }
        assert(!(exists|i: int| crate::keyvalue::first_key_at(m.take(k), key, i)));
        assert(m.take(k).push((key, v)) =~= m.take(k + 1));
        assert(crate::keyvalue::insert_entry(m.take(k), key, v) == m.take(k + 1));
        assert(crate::format::parse_key(b, pk + 1, None) == Ok::<(Seq<char>, int), VdfError>((key, pv)));
        assert(crate::format::parse_value(b, pv, b[pk], None) == Ok::<(Kv, int), VdfError>((v, q)));
        assert(b[pk] != TAG_END);
        assert(q == pos + fk1.len());
        lemma_parse_encoded(b, pos, m, k + 1);
    }
}

/// A map stored as the format stores it reads back, without a string table, as the same
/// map with the same key order at every depth, and decoding stops right after its end tag:
/// the bytes that follow are not read.
pub proof fn lemma_map_round_trip(b: Seq<u8>, pos: int, m: Seq<(Seq<char>, Kv)>)
    requires
        encodable_map(m),
        0 <= pos,
        pos + encode_map(m).len() <= b.len(),
        b.subrange(pos, pos + encode_map(m).len()) == encode_map(m),
    ensures
        parse_map(b, pos, None) == Ok::<(Seq<(Seq<char>, Kv)>, int), VdfError>((m, pos + encode_map(m).len())),
{
    lemma_parse_encoded(b, pos, m, 0);
    assert(m.take(0) =~= Seq::<(Seq<char>, Kv)>::empty());
    assert(encode_fields(m.take(0)) =~= Seq::<u8>::empty());
}

/// Decoding what `write_shortcuts` makes of a map gives the map back, for every map whose
/// keys are unique within each level and whose strings hold no NUL character.
pub proof fn lemma_shortcuts_round_trip(m: Seq<(Seq<char>, Kv)>)
    requires
        encodable_map(m),
    ensures
        shortcuts_spec(shortcuts_bytes(m)) == Ok::<Kv, VdfError>(Kv::Object(m)),
{
    let b = shortcuts_bytes(m);
    let em = encode_map(m);
    let p: int = 11;
    assert(b.subrange(1, 10) =~= header_bytes());
    assert(b[10] == 0);
    assert forall|j: int| 1 <= j < 10 implies b[j] != 0 by {
        assert(b[j] == header_bytes()[j - 1]);
    }
    assert(is_first_nul(b, 1, 10));
    lemma_first_nul_unique(b, 1, 10, nul_index(b, 1));
    assert(b.subrange(p, p + em.len() as int) =~= em);
    lemma_parse_encoded(b, p, m, 0);
    assert(m.take(0) =~= Seq::<(Seq<char>, Kv)>::empty());
    assert(encode_fields(m.take(0)) =~= Seq::<u8>::empty());
}

} // verus!
