//! Insertion-ordered maps from `usize` to `usize`, carried by
//! `indexmap::IndexMap`.  The compiler keeps its pending work and its
//! variable-to-register table in such maps; their contents are modelled as
//! the sequence of entries in insertion order.

use vstd::prelude::*;

verus! {

#[verifier::external_type_specification]
#[verifier::external_body]
#[verifier::reject_recursive_types(K)]
#[verifier::reject_recursive_types(V)]
#[verifier::reject_recursive_types(S)]
pub struct ExIndexMap<K, V, S>(indexmap::IndexMap<K, V, S>);

/// The entries of an ordered map, oldest first.
pub uninterp spec fn imap_entries(m: indexmap::IndexMap<usize, usize>) -> Seq<(usize, usize)>;

/// The position of the entry with the given key, or the length when no entry
/// has it.
pub open spec fn key_index(s: Seq<(usize, usize)>, key: usize) -> int
    decreases s.len(),
{
    if s.len() == 0 {
        0
    } else if s[0].0 == key {
        0
    } else {
        1 + key_index(s.drop_first(), key)
    }
}

pub proof fn lemma_key_index(s: Seq<(usize, usize)>, key: usize)
    ensures
        0 <= key_index(s, key) <= s.len(),
        key_index(s, key) < s.len() ==> s[key_index(s, key)].0 == key,
        forall|j: int| 0 <= j < key_index(s, key) ==> s[j].0 != key,
    decreases s.len(),
{
    if s.len() > 0 && s[0].0 != key {
        lemma_key_index(s.drop_first(), key);
        assert forall|j: int| 0 <= j < key_index(s, key) implies s[j].0 != key by {
            if j > 0 {
                assert(s.drop_first()[j - 1] == s[j]);
            }
        }
        if key_index(s, key) < s.len() {
            assert(s.drop_first()[key_index(s, key) - 1] == s[key_index(s, key)]);
        }
    }
}

/// Relies on `indexmap::IndexMap::new`: makes an empty map.
#[verifier::external_body]
pub fn imap_new() -> (m: indexmap::IndexMap<usize, usize>)
    ensures
        imap_entries(m) == Seq::<(usize, usize)>::empty(),
{
    indexmap::IndexMap::new()
}

/// Relies on `indexmap::IndexMap::insert`: a new key is appended last in
/// order and `None` comes back; an existing key keeps its place, its value is
/// replaced, and the old value comes back.
#[verifier::external_body]
pub fn imap_insert(m: &mut indexmap::IndexMap<usize, usize>, key: usize, value: usize) -> (r:
    Option<usize>)
    ensures
        ({
            let s = imap_entries(*old(m));
            let i = key_index(s, key);
            if i < s.len() {
                imap_entries(*final(m)) == s.update(i, (key, value)) && r == Some(s[i].1)
            } else {
                imap_entries(*final(m)) == s.push((key, value)) && r == None::<usize>
            }
        }),
{
    m.insert(key, value)
}

/// Relies on `indexmap::IndexMap::pop`: removes and returns the last entry,
/// keeping the order of the rest.
#[verifier::external_body]
pub fn imap_pop(m: &mut indexmap::IndexMap<usize, usize>) -> (r: Option<(usize, usize)>)
    ensures
        ({
            let s = imap_entries(*old(m));
            if s.len() == 0 {
                r == None::<(usize, usize)> && imap_entries(*final(m)) == s
            } else {
                r == Some(s.last()) && imap_entries(*final(m)) == s.drop_last()
            }
        }),
{
    m.pop()
}

/// Relies on `indexmap::IndexMap::get`: returns the value stored under the
/// key, or `None` when the key is absent.
#[verifier::external_body]
pub fn imap_get(m: &indexmap::IndexMap<usize, usize>, key: usize) -> (r: Option<usize>)
    ensures
        ({
            let s = imap_entries(*m);
            let i = key_index(s, key);
            if i < s.len() {
                r == Some(s[i].1)
            } else {
                r == None::<usize>
            }
        }),
{
    m.get(&key).copied()
}

/// Relies on `indexmap::IndexMap::iter`: visits the entries in order.
#[verifier::external_body]
pub fn imap_entry_list(m: &indexmap::IndexMap<usize, usize>) -> (r: Vec<(usize, usize)>)
    ensures
        r@ == imap_entries(*m),
{
    m.iter().map(|(k, v)| (*k, *v)).collect()
}

} // verus!
