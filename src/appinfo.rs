use vstd::prelude::*;

use rayon::iter::{IntoParallelRefIterator, ParallelIterator};

use crate::bytes::{int_value, parse_cstr, parse_u32, pow256};
use crate::error::VdfError;
use crate::format::{
    keys_from, lemma_indexed_keys_from_table, lemma_keys_from_forall, parse_map, table_view, value_keys_from,
};
use crate::keyvalue::{entries_view, find_key, first_key_at, lemma_entries_view, lookup, KeyValue, Kv};
use crate::kv_reader::read_entry_map;
use crate::reader::{Reader, SeekMode};
use crate::text::{eq_ignore_ascii_case, equals_ignore_ascii_case};

verus! {

/// Magic number of the oldest format: keys inline.
pub const MAGIC_OLDEST: u32 = 0x07564427;

/// Magic number of the format with inline keys.
pub const MAGIC_INLINE_KEYS: u32 = 0x07564428;

/// Magic number of the format whose keys are indices into a string table.
pub const MAGIC_INDEXED: u32 = 0x07564429;

/// Bytes at the start of every chunk that precede its map.
pub const CHUNK_HEADER_LEN: usize = 60;

/// The byte range of one application's record: `length` bytes from `offset`.
#[derive(Debug, Clone, Copy, PartialEq, Eq, Structural)]
pub struct AppInfoChunk {
    pub offset: usize,
    pub length: usize,
}

impl AppInfoChunk {
    pub open spec fn range(&self) -> (int, int) {
        (self.offset as int, self.length as int)
    }
}

/// `count` NUL-terminated strings read one after the other from `pos`, after `acc`.
pub open spec fn parse_strings(b: Seq<u8>, pos: int, count: nat, acc: Seq<Seq<char>>) -> Result<
    (Seq<Seq<char>>, int),
    VdfError,
>
    decreases count,
{
    if count == 0 {
        Ok((acc, pos))
    } else {
        match parse_cstr(b, pos) {
            Ok((s, p)) => parse_strings(b, p, (count - 1) as nat, acc.push(s)),
            Err(e) => Err(e),
        }
    }
}

/// The signed offset of the string table, stored after magic and universe.
pub open spec fn table_offset(b: Seq<u8>) -> int {
    int_value(b.subrange(8, 16), true)
}

/// What the header of an appinfo buffer gives: the key table (indexed format only), the
/// position of the first chunk, and the bound that a chunk's id must end before.
pub open spec fn parse_header(b: Seq<u8>) -> Result<(Option<Seq<Seq<char>>>, int, Option<int>), VdfError> {
    match parse_u32(b, 0) {
        Err(e) => Err(e),
        Ok((magic, _)) => match parse_u32(b, 4) {
            Err(e) => Err(e),
            Ok(_) => if magic == MAGIC_INDEXED {
                if b.len() < 16 {
                    Err(VdfError::TruncatedInput)
                } else if table_offset(b) < 0 || table_offset(b) > b.len() {
                    Err(VdfError::TruncatedInput)
                } else {
                    match parse_u32(b, table_offset(b)) {
                        Err(e) => Err(e),
                        Ok((count, p)) => match parse_strings(b, p, count as nat, Seq::empty()) {
                            Err(e) => Err(e),
                            Ok((t, _)) => Ok((Some(t), 16, Some(table_offset(b) - 4))),
                        },
                    }
                }
            } else if magic == MAGIC_INLINE_KEYS || magic == MAGIC_OLDEST {
                Ok((None, 8, None))
            } else {
                Err(VdfError::UnsupportedMagic)
            },
        },
    }
}

/// The chunk ranges from `pos` on, after `acc`: each chunk is an id, a length and that
/// many bytes; the list stops at an id of zero or at an id that ends at or past `end`.
pub open spec fn index_chunks(b: Seq<u8>, pos: int, end: Option<int>, acc: Seq<(int, int)>) -> Result<
    Seq<(int, int)>,
    VdfError,
>
    decreases b.len() - pos,
{
    match parse_u32(b, pos) {
        Err(e) => Err(e),
        Ok((id, p)) => if id == 0 || (end matches Some(e) && p >= e) {
            Ok(acc)
        } else {
            match parse_u32(b, p) {
                Err(e) => Err(e),
                Ok((len, q)) => if q + len > b.len() {
                    Err(VdfError::TruncatedInput)
                } else {
                    index_chunks(b, q + len, end, acc.push((q, len as int)))
                },
            }
        },
    }
}

/// The map of the chunk with range `c`: it follows a fixed header and must not reach past
/// the chunk.
pub open spec fn decode_chunk_spec(b: Seq<u8>, c: (int, int), table: Option<Seq<Seq<char>>>) -> Result<
    Seq<(Seq<char>, Kv)>,
    VdfError,
> {
    if c.0 < 0 || c.1 < 0 || c.0 + c.1 > b.len() || c.1 < CHUNK_HEADER_LEN {
        Err(VdfError::TruncatedInput)
    } else {
        match parse_map(b.subrange(c.0, c.0 + c.1), CHUNK_HEADER_LEN as int, table) {
            Ok((m, _)) => Ok(m),
            Err(e) => Err(e),
        }
    }
}

/// A chunk's map with one level of `appinfo` nesting taken off, where there is one.
pub open spec fn unwrap_appinfo(m: Seq<(Seq<char>, Kv)>) -> Seq<(Seq<char>, Kv)> {
    match lookup(m, "appinfo"@) {
        Some(Kv::Object(inner)) => inner,
        _ => m,
    }
}

/// The map has a `common` map whose `type` is the text `game`, in any ASCII case.
pub open spec fn is_game(m: Seq<(Seq<char>, Kv)>) -> bool {
    match lookup(m, "common"@) {
        Some(Kv::Object(c)) => match lookup(c, "type"@) {
            Some(Kv::Text(t)) => eq_ignore_ascii_case(t, "game"@),
            _ => false,
        },
        _ => false,
    }
}

/// The entries that survive from decoded chunks, in order; the first failed chunk fails all.
pub open spec fn gather(results: Seq<Result<Seq<(Seq<char>, Kv)>, VdfError>>, games_only: bool) -> Result<
    Seq<Kv>,
    VdfError,
>
    decreases results.len(),
{
    if results.len() == 0 {
        Ok(Seq::empty())
    } else {
        match gather(results.drop_last(), games_only) {
            Err(e) => Err(e),
            Ok(acc) => match results.last() {
                Err(e) => Err(e),
                Ok(m) => {
                    let u = unwrap_appinfo(m);
                    if !games_only || is_game(u) {
                        Ok(acc.push(Kv::Object(u)))
                    } else {
                        Ok(acc)
                    }
                },
            },
        }
    }
}

/// The decoded chunks with ranges `chunks`, in order.
pub open spec fn decode_all(b: Seq<u8>, chunks: Seq<(int, int)>, table: Option<Seq<Seq<char>>>) -> Seq<
    Result<Seq<(Seq<char>, Kv)>, VdfError>,
> {
    chunks.map_values(|c: (int, int)| decode_chunk_spec(b, c, table))
}

/// What decoding an appinfo buffer gives.
pub open spec fn appinfo_spec(b: Seq<u8>, games_only: bool) -> Result<Seq<Kv>, VdfError> {
    match parse_header(b) {
        Err(e) => Err(e),
        Ok((table, start, end)) => match index_chunks(b, start, end, Seq::empty()) {
            Err(e) => Err(e),
            Ok(chunks) => gather(decode_all(b, chunks, table), games_only),
        },
    }
}

/// The view of a decoded chunk.
pub open spec fn chunk_result_view(r: Result<Vec<(String, KeyValue)>, VdfError>) -> Result<
    Seq<(Seq<char>, Kv)>,
    VdfError,
> {
    match r {
        Ok(v) => Ok(entries_view(v@)),
        Err(e) => Err(e),
    }
}

/// Decodes the map of one chunk, on a reader bounded by the chunk.
pub fn decode_chunk(data: &[u8], chunk: &AppInfoChunk, table: Option<&Vec<String>>) -> (r: Result<
    Vec<(String, KeyValue)>,
    VdfError,
>)
    ensures
        chunk_result_view(r) == decode_chunk_spec(data@, chunk.range(), table_view(table)),
{
    let whole = Reader::new(data);
    let mut sub = whole.slice(chunk.offset, chunk.length)?;
    sub.seek(CHUNK_HEADER_LEN, SeekMode::Forward)?;
    let r = read_entry_map(&mut sub, table);
    match r {
        Ok(v) => Ok(v),
        Err(e) => Err(e),
    }
}

/// Relies on rayon: `par_iter().map(f)` over a slice calls `f` once for each item, and
/// collecting into a `Vec` (`ParallelExtend for Vec`) keeps the items' order. The chunks
/// are decoded concurrently; each result is what `decode_chunk` states.
#[verifier::external_body]
fn decode_chunks_parallel(data: &[u8], chunks: &Vec<AppInfoChunk>, table: Option<&Vec<String>>) -> (r: Vec<
    Result<Vec<(String, KeyValue)>, VdfError>,
>)
    ensures
        r@.len() == chunks@.len(),
        forall|i: int|
            0 <= i < chunks@.len() ==> chunk_result_view(#[trigger] r@[i]) == decode_chunk_spec(
                data@,
                chunks@[i].range(),
                table_view(table),
            ),
{
    chunks.par_iter().map(|c| decode_chunk(data, c, table)).collect()
}

/// The view of a list of chunks.
pub open spec fn chunks_view(v: Seq<AppInfoChunk>) -> Seq<(int, int)> {
    v.map_values(|c: AppInfoChunk| c.range())
}

/// The view of a list of decoded applications.
pub open spec fn apps_view(v: Seq<KeyValue>) -> Seq<Kv> {
    v.map_values(|k: KeyValue| k.view_kv())
}

/// The bound that a chunk id must end before, given the string table offset.
pub open spec fn chunk_end(string_table_offset: Option<u64>) -> Option<int> {
    match string_table_offset {
        Some(o) => Some(o - 4),
        None => None,
    }
}

/// Reads `count` NUL-terminated strings.
fn read_string_table(reader: &mut Reader, count: u32) -> (r: Result<Vec<String>, VdfError>)
    requires
        old(reader).wf(),
    ensures
        final(reader).wf(),
        final(reader).bytes() == old(reader).bytes(),
        match parse_strings(old(reader).bytes(), old(reader).pos(), count as nat, Seq::empty()) {
            Ok((t, end)) => (r matches Ok(v) && v@.map_values(|s: String| s@) == t && final(reader).pos() == end),
            Err(e) => r == Err::<Vec<String>, VdfError>(e),
        },
{
    let ghost b = reader.bytes();
    let mut strings: Vec<String> = Vec::new();
    let mut i: u32 = 0;
    assert(strings@.map_values(|s: String| s@) =~= Seq::empty());
    while i < count
        invariant
            reader.wf(),
            reader.bytes() == b,
            b == old(reader).bytes(),
            i <= count,
            parse_strings(b, old(reader).pos(), count as nat, Seq::empty()) == parse_strings(
                b,
                reader.pos(),
                (count - i) as nat,
                strings@.map_values(|s: String| s@),
            ),
        decreases count - i,
    {
        let ghost before = strings@.map_values(|s: String| s@);
        let s = reader.read_string(None)?;
        let ghost sv = s@;
        strings.push(s);
        assert(strings@.map_values(|s: String| s@) =~= before.push(sv));
        i = i + 1;
    }
    Ok(strings)
}

/// Lists the chunk ranges from the cursor on.
fn index_app_sections(reader: &mut Reader, string_table_offset: Option<u64>) -> (r: Result<
    Vec<AppInfoChunk>,
    VdfError,
>)
    requires
        old(reader).wf(),
    ensures
        final(reader).wf(),
        final(reader).bytes() == old(reader).bytes(),
        match index_chunks(old(reader).bytes(), old(reader).pos(), chunk_end(string_table_offset), Seq::empty()) {
            Ok(c) => (r matches Ok(v) && chunks_view(v@) == c),
            Err(e) => r == Err::<Vec<AppInfoChunk>, VdfError>(e),
        },
{
    let ghost b = reader.bytes();
    let ghost end = chunk_end(string_table_offset);
    let mut chunks: Vec<AppInfoChunk> = Vec::new();
    assert(chunks_view(chunks@) =~= Seq::empty());
    loop
        invariant
            reader.wf(),
            reader.bytes() == b,
            b == old(reader).bytes(),
            end == chunk_end(string_table_offset),
            index_chunks(b, old(reader).pos(), end, Seq::empty()) == index_chunks(
                b,
                reader.pos(),
                end,
                chunks_view(chunks@),
            ),
        decreases b.len() - reader.pos(),
    {
        let id = reader.read_uint32(true)?;
        let p = reader.get_offset();
        let past_end = match string_table_offset {
            Some(o) => (p as u128) + 4 >= o as u128,
            None => false,
        };
        if id == 0 || past_end {
            return Ok(chunks);
        }
        let length = reader.read_uint32(true)?;
        let offset = reader.get_offset();
        reader.seek(length as usize, SeekMode::Forward)?;
        let ghost before = chunks_view(chunks@);
        let chunk = AppInfoChunk { offset, length: length as usize };
        chunks.push(chunk);
        assert(chunks_view(chunks@) =~= before.push(chunk.range()));
    }
}

proof fn lemma_gather_err_prefix(
    results: Seq<Result<Seq<(Seq<char>, Kv)>, VdfError>>,
    k: int,
    games_only: bool,
)
    requires
        0 <= k <= results.len(),
        gather(results.take(k), games_only) is Err,
    ensures
        gather(results, games_only) == gather(results.take(k), games_only),
    decreases results.len() - k,
{
    if k < results.len() {
        assert(results.take(k + 1).drop_last() =~= results.take(k));
        lemma_gather_err_prefix(results, k + 1, games_only);
    } else {
        assert(results.take(k) =~= results);
    }
}

/// Takes off one level of `appinfo` nesting, where the map has one.
fn unwrap_appinfo_exec(entries: Vec<(String, KeyValue)>) -> (r: Vec<(String, KeyValue)>)
    ensures
        entries_view(r@) == unwrap_appinfo(entries_view(entries@)),
{
    let mut entries = entries;
    let ghost m = entries_view(entries@);
    proof {
        lemma_entries_view(entries@);
    }
    let key = String::from_str("appinfo");
    match find_key(&entries, &key) {
        Some(i) => {
            proof {
                crate::keyvalue::lemma_first_key_unique(m, key@, i as int, choose|j: int| first_key_at(m, key@, j));
            }
            let ghost old_entries = entries@;
            let (k, v) = entries.remove(i);
            match v {
                KeyValue::Object(inner) => inner,
                other => {
                    entries.insert(i, (k, other));
                    assert(entries@ =~= old_entries);
                    entries
                },
            }
        },
        None => {
            proof {
                if exists|j: int| first_key_at(m, key@, j) {
                    let j = choose|j: int| first_key_at(m, key@, j);
                    assert(m[j].0 == key@);
                }
            }
            entries
        },
    }
}

/// The value under `key` in `entries`, as `lookup` gives it.
fn get_entry<'a>(entries: &'a Vec<(String, KeyValue)>, key: &str) -> (r: Option<&'a KeyValue>)
    ensures
        match r {
            Some(v) => lookup(entries_view(entries@), key@) == Some(v.view_kv()),
            None => lookup(entries_view(entries@), key@) is None,
        },
{
    let ghost m = entries_view(entries@);
    proof {
        lemma_entries_view(entries@);
    }
    let k = String::from_str(key);
    match find_key(entries, &k) {
        Some(i) => {
            proof {
                crate::keyvalue::lemma_first_key_unique(m, key@, i as int, choose|j: int| first_key_at(m, key@, j));
            }
            Some(&entries[i].1)
        },
        None => {
            proof {
                if exists|j: int| first_key_at(m, key@, j) {
                    let j = choose|j: int| first_key_at(m, key@, j);
                    assert(m[j].0 == key@);
                }
            }
            None
        },
    }
}

/// Whether an application's map describes a game.
pub fn is_game_entry(entries: &Vec<(String, KeyValue)>) -> (r: bool)
    ensures
        r == is_game(entries_view(entries@)),
{
    match get_entry(entries, "common") {
        Some(KeyValue::Object(common)) => match get_entry(common, "type") {
            Some(KeyValue::Text(t)) => equals_ignore_ascii_case(t.as_str(), "game"),
            _ => false,
        },
        _ => false,
    }
}

/// Lists and decodes the chunks from the cursor on, and keeps what `games_only` asks for.
pub fn read_app_sections(
    reader: &mut Reader,
    string_table_offset: Option<u64>,
    table: Option<&Vec<String>>,
    games_only: bool,
) -> (r: Result<Vec<KeyValue>, VdfError>)
    requires
        old(reader).wf(),
    ensures
        match index_chunks(old(reader).bytes(), old(reader).pos(), chunk_end(string_table_offset), Seq::empty()) {
            Err(e) => r == Err::<Vec<KeyValue>, VdfError>(e),
            Ok(chunks) => match gather(decode_all(old(reader).bytes(), chunks, table_view(table)), games_only) {
                Ok(apps) => (r matches Ok(v) && apps_view(v@) == apps),
                Err(e) => r == Err::<Vec<KeyValue>, VdfError>(e),
            },
        },
{
    let ghost b = reader.bytes();
    let chunks = index_app_sections(reader, string_table_offset)?;
    let data = reader.get_data();
    let mut results = decode_chunks_parallel(data, &chunks, table);
    let ghost rs = decode_all(b, chunks_view(chunks@), table_view(table));
    assert forall|j: int| 0 <= j < rs.len() implies chunk_result_view(#[trigger] results@[j]) == rs[j] by {
        assert(chunks_view(chunks@)[j] == chunks@[j].range());
    }
    let mut out: Vec<KeyValue> = Vec::new();
    let n = results.len();
    let mut i: usize = 0;
    assert(rs.take(0) =~= Seq::empty());
    assert(apps_view(out@) =~= Seq::empty());
    while i < n
        invariant
            n == results@.len(),
            n == rs.len(),
            b == old(reader).bytes(),
            rs == decode_all(b, chunks_view(chunks@), table_view(table)),
            index_chunks(b, old(reader).pos(), chunk_end(string_table_offset), Seq::empty()) == Ok::<
                Seq<(int, int)>,
                VdfError,
            >(chunks_view(chunks@)),
            0 <= i <= n,
            forall|j: int| i <= j < n ==> chunk_result_view(#[trigger] results@[j]) == rs[j],
            gather(rs.take(i as int), games_only) == Ok::<Seq<Kv>, VdfError>(apps_view(out@)),
        decreases n - i,
    {
        let mut slot: Result<Vec<(String, KeyValue)>, VdfError> = Err(VdfError::TruncatedInput);
        results.set_and_swap(i, &mut slot);
        assert(chunk_result_view(slot) == rs[i as int]);
        assert(rs.take(i + 1).drop_last() =~= rs.take(i as int));
        match slot {
            Err(e) => {
                proof {
                    lemma_gather_err_prefix(rs, i + 1, games_only);
                }
                return Err(e);
            },
            Ok(entries) => {
                let inner = unwrap_appinfo_exec(entries);
                if !games_only || is_game_entry(&inner) {
                    let ghost before = apps_view(out@);
                    let app = KeyValue::Object(inner);
                    out.push(app);
                    assert(apps_view(out@) =~= before.push(app.view_kv()));
                }
            },
        }
        i = i + 1;
    }
    assert(rs.take(n as int) =~= rs);
    Ok(out)
}

/// Decodes an appinfo buffer into the maps of its applications, in file order. With
/// `filter` left out or `true`, only games are kept.
pub fn read_appinfo(data: &[u8], filter: Option<bool>) -> (r: Result<Vec<KeyValue>, VdfError>)
    ensures
        match appinfo_spec(data@, filter != Some(false)) {
            Ok(apps) => (r matches Ok(v) && apps_view(v@) == apps),
            Err(e) => r == Err::<Vec<KeyValue>, VdfError>(e),
        },
{
    let games_only = match filter {
        Some(f) => f,
        None => true,
    };
    let mut reader = Reader::new(data);
    let magic = reader.read_uint32(true)?;
    let _universe = reader.read_uint32(true)?;
    if magic == MAGIC_INDEXED {
        let ghost pos = reader.pos();
        proof {
            crate::bytes::lemma_int_value_range(data@.subrange(8, 16), true);
            reveal_with_fuel(pow256, 9);
        }
        let string_table_offset = reader.read_int64(true)?;
        assert(string_table_offset == table_offset(data@));
        let data_start = reader.get_offset();
        if string_table_offset < 0 || string_table_offset as u64 > data.len() as u64 {
            return Err(VdfError::TruncatedInput);
        }
        reader.seek(string_table_offset as usize, SeekMode::Absolute)?;
        let count = reader.read_uint32(true)?;
        let strings = read_string_table(&mut reader, count)?;
        reader.seek(data_start, SeekMode::Absolute)?;
        read_app_sections(&mut reader, Some(string_table_offset as u64), Some(&strings), games_only)
    } else if magic == MAGIC_INLINE_KEYS || magic == MAGIC_OLDEST {
        read_app_sections(&mut reader, None, None, games_only)
    } else {
        Err(VdfError::UnsupportedMagic)
    }
}

proof fn lemma_map_multiset<A, B>(s1: Seq<A>, s2: Seq<A>, f: spec_fn(A) -> B)
    requires
        s1.to_multiset() == s2.to_multiset(),
    ensures
        s1.map_values(f).to_multiset() == s2.map_values(f).to_multiset(),
    decreases s1.len(),
{
    broadcast use vstd::seq_lib::group_to_multiset_ensures, vstd::multiset::group_multiset_axioms;

    if s1.len() == 0 {
        vstd::seq_lib::to_multiset_len(s2);
        assert(s1.map_values(f) =~= Seq::<B>::empty());
        assert(s2.map_values(f) =~= Seq::<B>::empty());
    } else {
        let x = s1.last();
        let r1 = s1.drop_last();
        assert(s1 =~= r1.push(x));
        vstd::seq_lib::to_multiset_build(r1, x);
        assert(s2.to_multiset().count(x) > 0);
        vstd::seq_lib::to_multiset_contains(s2, x);
        let j = choose|j: int| 0 <= j < s2.len() && s2[j] == x;
        let r2 = s2.remove(j);
        vstd::seq_lib::to_multiset_remove(s2, j);
        assert(r1.to_multiset() =~= r2.to_multiset());
        lemma_map_multiset(r1, r2, f);
        assert(s1.map_values(f) =~= r1.map_values(f).push(f(x)));
        vstd::seq_lib::to_multiset_build(r1.map_values(f), f(x));
        assert(s2.map_values(f) =~= r2.map_values(f).insert(j, f(x)));
        vstd::seq_lib::to_multiset_insert(r2.map_values(f), j, f(x));
    }
}

/// Chunks do not depend on each other: decoding the chunk ranges in any order gives the
/// same multiset of results as decoding them in file order.
pub proof fn lemma_chunk_order_irrelevant(
    b: Seq<u8>,
    in_file_order: Seq<(int, int)>,
    any_order: Seq<(int, int)>,
    table: Option<Seq<Seq<char>>>,
)
    requires
        in_file_order.to_multiset() == any_order.to_multiset(),
    ensures
        decode_all(b, in_file_order, table).to_multiset() == decode_all(b, any_order, table).to_multiset(),
{
    let f = |c: (int, int)| decode_chunk_spec(b, c, table);
    assert(decode_all(b, in_file_order, table) =~= in_file_order.map_values(f));
    assert(decode_all(b, any_order, table) =~= any_order.map_values(f));
    lemma_map_multiset(in_file_order, any_order, f);
}

/// The magic number alone decides the key mode: a header that parses carries a string
/// table exactly when its magic is the indexed version's, and only the three known
/// versions parse.
pub proof fn lemma_mode_exclusivity(b: Seq<u8>)
    ensures
        parse_header(b) matches Ok((t, _, _)) ==> {
            let magic = parse_u32(b, 0)->Ok_0.0;
            &&& magic == MAGIC_OLDEST || magic == MAGIC_INLINE_KEYS || magic == MAGIC_INDEXED
            &&& (t is Some <==> magic == MAGIC_INDEXED)
        },
{
}

proof fn lemma_chunk_keys(b: Seq<u8>, c: (int, int), t: Seq<Seq<char>>)
    ensures
        decode_chunk_spec(b, c, Some(t)) matches Ok(m) ==> keys_from(m, t),
{
    if !(c.0 < 0 || c.1 < 0 || c.0 + c.1 > b.len() || c.1 < CHUNK_HEADER_LEN) {
        lemma_indexed_keys_from_table(b.subrange(c.0, c.0 + c.1), CHUNK_HEADER_LEN as int, t, Seq::empty());
    }
}

proof fn lemma_unwrap_keys(m: Seq<(Seq<char>, Kv)>, t: Seq<Seq<char>>)
    requires
        keys_from(m, t),
    ensures
        keys_from(unwrap_appinfo(m), t),
{
    lemma_keys_from_forall(m, t);
    if exists|i: int| first_key_at(m, "appinfo"@, i) {
        let i = choose|i: int| first_key_at(m, "appinfo"@, i);
        assert(value_keys_from(m[i].1, t));
    }
}

proof fn lemma_gather_keys(results: Seq<Result<Seq<(Seq<char>, Kv)>, VdfError>>, games_only: bool, t: Seq<Seq<char>>)
    requires
        forall|i: int| 0 <= i < results.len() ==> (#[trigger] results[i] matches Ok(m) ==> keys_from(m, t)),
    ensures
        gather(results, games_only) matches Ok(apps) ==> forall|i: int|
            0 <= i < apps.len() ==> value_keys_from(#[trigger] apps[i], t),
    decreases results.len(),
{
    if results.len() > 0 {
        let r = results.drop_last();
        assert forall|i: int| 0 <= i < r.len() implies (#[trigger] r[i] matches Ok(m) ==> keys_from(m, t)) by {
            assert(r[i] == results[i]);
        }
        lemma_gather_keys(r, games_only, t);
        assert(results.last() == results[results.len() - 1]);
        if let Ok(m) = results.last() {
            lemma_unwrap_keys(m, t);
        }
    }
}

/// In the indexed version every key of every decoded app, at every depth, is a string of
/// the file's string table; the inline-key versions carry no table.
pub proof fn lemma_indexed_file_keys(b: Seq<u8>, games_only: bool)
    ensures
        parse_header(b) matches Ok((Some(t), _, _)) ==> (appinfo_spec(b, games_only) matches Ok(apps)
            ==> forall|i: int| 0 <= i < apps.len() ==> value_keys_from(#[trigger] apps[i], t)),
{
    if let Ok((Some(t), start, end)) = parse_header(b) {
        if let Ok(chunks) = index_chunks(b, start, end, Seq::empty()) {
            let rs = decode_all(b, chunks, Some(t));
            assert forall|i: int| 0 <= i < rs.len() implies (#[trigger] rs[i] matches Ok(m) ==> keys_from(m, t)) by {
                lemma_chunk_keys(b, chunks[i], t);
            }
            lemma_gather_keys(rs, games_only, t);
        }
    }
}

/// Every range lies inside a buffer of length `len`.
pub open spec fn ranges_within(chunks: Seq<(int, int)>, len: int) -> bool {
    forall|i: int| 0 <= i < chunks.len() ==> 0 <= (#[trigger] chunks[i]).0 && 0 <= chunks[i].1 && chunks[i].0 + chunks[i].1 <= len
}

proof fn lemma_parse_u32_extend(b: Seq<u8>, rest: Seq<u8>, pos: int)
    ensures
        parse_u32(b, pos) is Ok ==> parse_u32(b + rest, pos) == parse_u32(b, pos),
{
    if parse_u32(b, pos) is Ok {
        assert((b + rest).subrange(pos, pos + 4) =~= b.subrange(pos, pos + 4));
    }
}

proof fn lemma_index_chunks_extend(b: Seq<u8>, rest: Seq<u8>, pos: int, end: Option<int>, acc: Seq<(int, int)>)
    requires
        ranges_within(acc, b.len() as int),
        index_chunks(b, pos, end, acc) is Ok,
    ensures
        index_chunks(b + rest, pos, end, acc) == index_chunks(b, pos, end, acc),
        ranges_within(index_chunks(b, pos, end, acc)->Ok_0, b.len() as int),
    decreases b.len() - pos,
{
    lemma_parse_u32_extend(b, rest, pos);
    if let Ok((id, p)) = parse_u32(b, pos) {
        if !(id == 0 || (end matches Some(e) && p >= e)) {
            lemma_parse_u32_extend(b, rest, p);
            if let Ok((len, q)) = parse_u32(b, p) {
                let acc2 = acc.push((q, len as int));
                assert(ranges_within(acc2, b.len() as int)) by {
                    assert forall|i: int| 0 <= i < acc2.len() implies 0 <= (#[trigger] acc2[i]).0 && 0 <= acc2[i].1
                        && acc2[i].0 + acc2[i].1 <= b.len() by {
                        if i < acc.len() {
                            assert(acc2[i] == acc[i]);
                        }
                    }
                }
                lemma_index_chunks_extend(b, rest, q + len, end, acc2);
            }
        }
    }
}

/// In the inline-key versions decoding stops at the zero app id: bytes appended after a
/// buffer that decodes are never read and leave the result as it was.
pub proof fn lemma_legacy_ignores_trailing_bytes(b: Seq<u8>, rest: Seq<u8>, games_only: bool)
    requires
        parse_u32(b, 0) matches Ok((magic, _)) && (magic == MAGIC_OLDEST || magic == MAGIC_INLINE_KEYS),
        appinfo_spec(b, games_only) is Ok,
    ensures
        appinfo_spec(b + rest, games_only) == appinfo_spec(b, games_only),
{
    lemma_parse_u32_extend(b, rest, 0);
    lemma_parse_u32_extend(b, rest, 4);
    let chunks = index_chunks(b, 8, None, Seq::empty());
    lemma_index_chunks_extend(b, rest, 8, None, Seq::empty());
    let c = chunks->Ok_0;
    assert forall|i: int| 0 <= i < c.len() implies decode_chunk_spec(b + rest, #[trigger] c[i], None)
        == decode_chunk_spec(b, c[i], None) by {
        assert((b + rest).subrange(c[i].0, c[i].0 + c[i].1) =~= b.subrange(c[i].0, c[i].0 + c[i].1));
    }
    assert(decode_all(b + rest, c, None) =~= decode_all(b, c, None));
}

} // verus!
