//! Concurrent string-to-string index of the `scc` crate, behind trusted wrappers.
use vstd::prelude::*;

verus! {

#[verifier::external_type_specification]
#[verifier::external_body]
#[verifier::reject_recursive_types(K)]
#[verifier::reject_recursive_types(V)]
#[verifier::reject_recursive_types(H)]
pub struct ExHashIndex<K, V, H: std::hash::BuildHasher>(scc::HashIndex<K, V, H>);

/// Concurrent index from string to string.
pub type StringIndex = scc::HashIndex<String, String>;

/// Contents of a string index.
pub type Entries = Map<Seq<char>, Seq<char>>;

/// What a concurrent index of strings holds: key to value.
pub uninterp spec fn index_entries(t: StringIndex) -> Map<Seq<char>, Seq<char>>;

/// Relies on `scc::HashIndex::new`: an empty index.
#[verifier::external_body]
pub(crate) fn index_new() -> (r: StringIndex)
    ensures
        index_entries(r) == Entries::empty(),
{
    scc::HashIndex::new()
}

/// Relies on `scc::HashIndex::insert_sync`: the pair is added when the key is absent, and
/// handed back with the index unchanged when it is present.
#[verifier::external_body]
pub(crate) fn index_insert(t: &mut StringIndex, k: String, v: String) -> (r: bool)
    ensures
        r == !index_entries(*old(t)).contains_key(k@),
        r ==> index_entries(*final(t)) == index_entries(*old(t)).insert(k@, v@),
        !r ==> index_entries(*final(t)) == index_entries(*old(t)),
{
    t.insert_sync(k, v).is_ok()
}

/// Relies on `scc::HashIndex::remove_sync`: the entry of the key is removed; the result tells
/// whether there was one.
#[verifier::external_body]
pub(crate) fn index_remove(t: &mut StringIndex, k: &str) -> (r: bool)
    ensures
        r == index_entries(*old(t)).contains_key(k@),
        index_entries(*final(t)) == index_entries(*old(t)).remove(k@),
{
    t.remove_sync(k)
}

/// Relies on `scc::HashIndex::peek_with`: the value of the key, if present.
#[verifier::external_body]
pub(crate) fn index_get(t: &StringIndex, k: &str) -> (r: Option<String>)
    ensures
        match r {
            Some(v) => index_entries(*t).contains_key(k@) && index_entries(*t)[k@] == v@,
            None => !index_entries(*t).contains_key(k@),
        },
{
    t.peek_with(k, |_, v| owned_copy(v))
}

/// A copy of `s`.
pub fn owned_copy(s: &String) -> (r: String)
    ensures
        r@ == s@,
{
    s.clone()
}

/// Whether `a` differs from `b`.
pub fn value_differs(a: &String, b: &str) -> (r: bool)
    ensures
        r == (a@ != b@),
{
    *a != b.to_owned()
}

/// Keys of `m` whose value is not `v`.
pub open spec fn keys_valued_otherwise(m: Entries, v: Seq<char>) -> Set<Seq<char>> {
    m.dom().filter(|k: Seq<char>| m[k] != v)
}

/// Relies on `scc::HashIndex::retain_sync`: exactly the entries for which the predicate holds
/// are kept; here, those whose value is not `v`.
#[verifier::external_body]
pub(crate) fn index_remove_values(t: &mut StringIndex, v: &str)
    ensures
        index_entries(*final(t)) == index_entries(*old(t)).restrict(
            keys_valued_otherwise(index_entries(*old(t)), v@),
        ),
{
    t.retain_sync(|_, x| value_differs(x, v))
}

} // verus!
