//! Trusted declarations for `indexmap::IndexMap`, the insertion-ordered
//! map that backs the corpus index.
//!
//! The map is used with `String` keys and `usize` values (a slot number
//! into a table of occurrence lists). Its contents are named by
//! [`im_seq`]: the key-value pairs in insertion order.

use vstd::prelude::*;

verus! {

#[verifier::external_type_specification]
#[verifier::external_body]
#[verifier::reject_recursive_types(K)]
#[verifier::reject_recursive_types(V)]
#[verifier::reject_recursive_types(S)]
pub struct ExIndexMap<K, V, S>(indexmap::IndexMap<K, V, S>);

/// What the map holds: its key-value pairs, in insertion order.
pub uninterp spec fn im_seq(m: indexmap::IndexMap<String, usize>) -> Seq<(Seq<char>, usize)>;

/// Relies on `IndexMap::new`: the new map is empty.
#[verifier::external_body]
pub fn im_new() -> (r: indexmap::IndexMap<String, usize>)
    ensures
        im_seq(r).len() == 0,
{
    indexmap::IndexMap::new()
}

/// Relies on `IndexMap::len`: the number of stored pairs.
#[verifier::external_body]
pub fn im_len(m: &indexmap::IndexMap<String, usize>) -> (r: usize)
    ensures
        r == im_seq(*m).len(),
{
    m.len()
}

/// Relies on `IndexMap::get`: the value stored under `k`, if `k` is
/// present.
#[verifier::external_body]
pub fn im_get(m: &indexmap::IndexMap<String, usize>, k: &str) -> (r: Option<usize>)
    ensures
        r matches Some(v) ==> exists|i: int|
            0 <= i < im_seq(*m).len() && (#[trigger] im_seq(*m)[i]).0 == k@ && im_seq(*m)[i].1
                == v,
        r is None ==> forall|i: int|
            0 <= i < im_seq(*m).len() ==> (#[trigger] im_seq(*m)[i]).0 != k@,
{
    m.get(k).copied()
}

/// Some pair of `s` carries the key `k`.
pub open spec fn im_has_key(s: Seq<(Seq<char>, usize)>, k: Seq<char>) -> bool {
    exists|i: int| 0 <= i < s.len() && (#[trigger] s[i]).0 == k
}

/// A position of `s` whose pair carries the key `k`.
pub open spec fn im_key_at(s: Seq<(Seq<char>, usize)>, k: Seq<char>) -> int {
    choose|i: int| 0 <= i < s.len() && (#[trigger] s[i]).0 == k
}

/// Relies on `IndexMap::insert`: a key not yet present is inserted last
/// in order; a present key keeps its place and takes the new value.
#[verifier::external_body]
pub fn im_insert(m: &mut indexmap::IndexMap<String, usize>, k: String, v: usize)
    ensures
        im_seq(*final(m)) == (if im_has_key(im_seq(*old(m)), k@) {
            im_seq(*old(m)).update(im_key_at(im_seq(*old(m)), k@), (k@, v))
        } else {
            im_seq(*old(m)).push((k@, v))
        }),
{
    m.insert(k, v);
}

/// Relies on `IndexMap::get_index`: the pair at position `i`, in
/// insertion order.
#[verifier::external_body]
pub fn im_get_index(m: &indexmap::IndexMap<String, usize>, i: usize) -> (r: Option<
    (String, usize),
>)
    ensures
        r is Some <==> i < im_seq(*m).len(),
        r matches Some(p) ==> p.0@ == im_seq(*m)[i as int].0 && p.1 == im_seq(*m)[i as int].1,
{
    m.get_index(i).map(|(k, v)| (k.clone(), *v))
}

} // verus!
