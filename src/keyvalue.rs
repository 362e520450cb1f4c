use vstd::prelude::*;

verus! {

/// The mathematical value of a tree.
pub enum Kv {
    Object(Seq<(Seq<char>, Kv)>),
    Text(Seq<char>),
    UInt32(u32),
}

/// A node of a binary KeyValue tree. A map keeps its entries in their stored order.
#[derive(Debug, PartialEq, Eq)]
pub enum KeyValue {
    Object(Vec<(String, KeyValue)>),
    Text(String),
    UInt32(u32),
}

/// The value of a list of entries, in their stored order.
pub open spec fn entries_view(s: Seq<(String, KeyValue)>) -> Seq<(Seq<char>, Kv)>
    decreases s,
{
    if s.len() == 0 {
        Seq::empty()
    } else {
        proof {
            vstd::seq::axiom_seq_subrange_decreases(s, 0, s.len() - 1);
            vstd::seq::axiom_seq_index_decreases(s, s.len() - 1);
        }
        entries_view(s.drop_last()).push((s.last().0@, s.last().1.view_kv()))
    }
}

impl KeyValue {
    pub open spec fn view_kv(&self) -> Kv
        decreases self,
    {
        match self {
            KeyValue::Object(v) => {
                proof {
                    vstd::std_specs::vec::axiom_vec_decreases_to_view(*v);
                }
                Kv::Object(entries_view(v@))
            },
            KeyValue::Text(s) => Kv::Text(s@),
            KeyValue::UInt32(n) => Kv::UInt32(*n),
        }
    }
}

impl View for KeyValue {
    type V = Kv;

    open spec fn view(&self) -> Kv {
        self.view_kv()
    }
}

pub proof fn lemma_entries_view(s: Seq<(String, KeyValue)>)
    ensures
        entries_view(s).len() == s.len(),
        forall|i: int| 0 <= i < s.len() ==> #[trigger] entries_view(s)[i] == (s[i].0@, s[i].1.view_kv()),
    decreases s.len(),
{
    if s.len() > 0 {
        lemma_entries_view(s.drop_last());
    }
}

/// `i` is the first entry of `m` under key `k`.
pub open spec fn first_key_at<V>(m: Seq<(Seq<char>, V)>, k: Seq<char>, i: int) -> bool {
    &&& 0 <= i < m.len()
    &&& m[i].0 == k
    &&& forall|j: int| 0 <= j < i ==> m[j].0 != k
}

/// `m` has an entry under key `k`.
pub open spec fn has_key<V>(m: Seq<(Seq<char>, V)>, k: Seq<char>) -> bool {
    exists|i: int| 0 <= i < m.len() && m[i].0 == k
}

/// The value of the first entry of `m` under key `k`.
pub open spec fn lookup(m: Seq<(Seq<char>, Kv)>, k: Seq<char>) -> Option<Kv> {
    if exists|i: int| first_key_at(m, k, i) {
        Some(m[choose|i: int| first_key_at(m, k, i)].1)
    } else {
        None
    }
}

/// `m` with `(k, v)` stored: in place of the first entry under `k`, or at the end.
pub open spec fn insert_entry(m: Seq<(Seq<char>, Kv)>, k: Seq<char>, v: Kv) -> Seq<(Seq<char>, Kv)> {
    if exists|i: int| first_key_at(m, k, i) {
        m.update(choose|i: int| first_key_at(m, k, i), (k, v))
    } else {
        m.push((k, v))
    }
}

/// No two entries of `m` share a key.
pub open spec fn keys_unique<V>(m: Seq<(Seq<char>, V)>) -> bool {
    forall|i: int, j: int| 0 <= i < j < m.len() ==> m[i].0 != m[j].0
}

pub proof fn lemma_first_key_unique<V>(m: Seq<(Seq<char>, V)>, k: Seq<char>, i: int, j: int)
    requires
        first_key_at(m, k, i),
        first_key_at(m, k, j),
    ensures
        i == j,
{
}

/// Finds the first entry of `entries` under `key`.
pub fn find_key(entries: &Vec<(String, KeyValue)>, key: &String) -> (r: Option<usize>)
    ensures
        match r {
            Some(i) => first_key_at(entries_view(entries@), key@, i as int),
            None => !has_key(entries_view(entries@), key@),
        },
{
    proof {
        lemma_entries_view(entries@);
    }
    let mut i: usize = 0;
    while i < entries.len()
        invariant
            0 <= i <= entries@.len(),
            entries_view(entries@).len() == entries@.len(),
            forall|j: int| 0 <= j < i ==> entries_view(entries@)[j].0 != key@,
        decreases entries@.len() - i,
    {
        proof {
            lemma_entries_view(entries@);
        }
        if entries[i].0 == *key {
            return Some(i);
        }
        i = i + 1;
    }
    None
}

/// Stores `(key, value)` in `entries` as `insert_entry` says.
pub fn insert_entry_exec(entries: &mut Vec<(String, KeyValue)>, key: String, value: KeyValue)
    ensures
        entries_view(final(entries)@) == insert_entry(entries_view(old(entries)@), key@, value.view_kv()),
{
    let ghost m = entries_view(entries@);
    proof {
        lemma_entries_view(entries@);
    }
    match find_key(entries, &key) {
        Some(i) => {
            proof {
                lemma_first_key_unique(m, key@, i as int, choose|j: int| first_key_at(m, key@, j));
            }
            let ghost kv = (key@, value.view_kv());
            entries.set(i, (key, value));
            proof {
                lemma_entries_view(entries@);
                assert(entries_view(entries@) =~= m.update(i as int, kv));
            }
        },
        None => {
            let ghost kv = (key@, value.view_kv());
            entries.push((key, value));
            proof {
                lemma_entries_view(entries@);
                assert(entries_view(entries@) =~= m.push(kv));
            }
        },
    }
}

} // verus!
