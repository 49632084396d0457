use vstd::prelude::*;
use indexmap::IndexMap;

verus! {

#[verifier::external_type_specification]
#[verifier::external_body]
#[verifier::reject_recursive_types(K)]
#[verifier::reject_recursive_types(V)]
#[verifier::reject_recursive_types(S)]
pub struct ExIndexMap<K, V, S>(IndexMap<K, V, S>);

/// The keys of a label table, in the order they were first inserted.
pub uninterp spec fn label_order(m: IndexMap<String, ()>) -> Seq<Seq<char>>;

/// Relies on `IndexMap::new`: a map with no keys.
#[verifier::external_body]
pub(crate) fn labels_new() -> (r: IndexMap<String, ()>)
    ensures
        label_order(r) == Seq::<Seq<char>>::empty(),
{
    IndexMap::new()
}

/// Relies on `IndexMap::insert_full`: a key already present keeps its place
/// and its index is returned with `true`; a new key goes last, and its index
/// is returned with `false`.
#[verifier::external_body]
pub(crate) fn labels_insert(m: &mut IndexMap<String, ()>, k: String) -> (r: (usize, bool))
    ensures
        r.1 == label_order(*old(m)).contains(k@),
        r.1 ==> label_order(*final(m)) == label_order(*old(m)),
        r.1 ==> r.0 < label_order(*old(m)).len() && label_order(*old(m))[r.0 as int] == k@,
        !r.1 ==> label_order(*final(m)) == label_order(*old(m)).push(k@),
        !r.1 ==> r.0 == label_order(*old(m)).len(),
{
    let (i, prev) = m.insert_full(k, ());
    (i, prev.is_some())
}

/// Relies on `IndexMap::get_index_of`: the index of the key equal to `k`, if
/// there is one.
#[verifier::external_body]
pub(crate) fn labels_index_of(m: &IndexMap<String, ()>, k: &str) -> (r: Option<usize>)
    ensures
        match r {
            Some(i) => i < label_order(*m).len() && label_order(*m)[i as int] == k@,
            None => !label_order(*m).contains(k@),
        },
{
    m.get_index_of(k)
}

} // verus!
