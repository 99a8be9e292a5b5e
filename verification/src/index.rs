use vstd::prelude::*;

use crate::log::LogPointer;

verus! {

/// One live key in the in-memory index: the key, the pointer to the most
/// recent `Put` record for it, and (ghost) the value that record carries.
/// Only the pointer is kept in memory, so the index grows with the live
/// key count, not with log history.
pub struct IndexEntry {
    pub key: Vec<u8>,
    pub ptr: LogPointer,
    pub value: Ghost<Seq<u8>>,
}

/// No two entries name the same key.
pub open spec fn unique_keys(es: Seq<IndexEntry>) -> bool {
    forall|i: int, j: int|
        0 <= i < j < es.len() ==> (#[trigger] es[i]).key@ != (#[trigger] es[j]).key@
}

/// The key-value map an index vector denotes.
pub open spec fn index_map(es: Seq<IndexEntry>) -> Map<Seq<u8>, Seq<u8>>
    decreases es.len(),
{
    if es.len() == 0 {
        Map::<Seq<u8>, Seq<u8>>::empty()
    } else {
        index_map(es.drop_last()).insert(es.last().key@, es.last().value@)
    }
}

/// A key is in the map exactly when some entry names it.
pub proof fn lemma_index_map_contains(es: Seq<IndexEntry>, k: Seq<u8>)
    ensures
        index_map(es).contains_key(k) <==> exists|i: int|
            0 <= i < es.len() && (#[trigger] es[i]).key@ == k,
    decreases es.len(),
{
    if es.len() > 0 {
        lemma_index_map_contains(es.drop_last(), k);
        if es.last().key@ == k {
            assert(es[es.len() - 1].key@ == k);
        } else {
            if exists|i: int| 0 <= i < es.drop_last().len() && (#[trigger] es.drop_last()[i]).key@
                == k {
                let i = choose|i: int|
                    0 <= i < es.drop_last().len() && (#[trigger] es.drop_last()[i]).key@ == k;
                assert(es[i].key@ == k);
            }
            if exists|i: int| 0 <= i < es.len() && (#[trigger] es[i]).key@ == k {
                let i = choose|i: int| 0 <= i < es.len() && (#[trigger] es[i]).key@ == k;
                assert(es.drop_last()[i].key@ == k);
            }
        }
    }
}

/// With unique keys, the entry for a key gives the map's value at it.
pub proof fn lemma_index_map_lookup(es: Seq<IndexEntry>, i: int)
    requires
        unique_keys(es),
        0 <= i < es.len(),
    ensures
        index_map(es).contains_key(es[i].key@),
        index_map(es)[es[i].key@] == es[i].value@,
    decreases es.len(),
{
    if i == es.len() - 1 {
    } else {
        assert(forall|a: int, b: int|
            0 <= a < b < es.drop_last().len() ==> (#[trigger] es.drop_last()[a]).key@ != (
            #[trigger] es.drop_last()[b]).key@);
        lemma_index_map_lookup(es.drop_last(), i);
        assert(es.drop_last()[i] == es[i]);
        assert(es[i].key@ != es.last().key@);
    }
}

/// With unique keys, dropping the entry for a key removes the key from
/// the denoted map and changes nothing else.
pub proof fn lemma_index_map_remove(es: Seq<IndexEntry>, i: int)
    requires
        unique_keys(es),
        0 <= i < es.len(),
    ensures
        index_map(es.remove(i)) == index_map(es).remove(es[i].key@),
    decreases es.len(),
{
    let k = es[i].key@;
    if i == es.len() - 1 {
        assert(es.remove(i) =~= es.drop_last());
        lemma_index_map_contains(es.drop_last(), k);
        assert(forall|a: int| 0 <= a < es.drop_last().len() ==> (#[trigger] es.drop_last()[a]).key@
            != k);
        assert(!index_map(es.drop_last()).contains_key(k));
        assert(index_map(es).remove(k) =~= index_map(es.drop_last()));
    } else {
        let dl = es.drop_last();
        assert(forall|a: int, b: int|
            0 <= a < b < dl.len() ==> (#[trigger] dl[a]).key@ != (#[trigger] dl[b]).key@);
        lemma_index_map_remove(dl, i);
        assert(dl[i] == es[i]);
        assert(es.remove(i).drop_last() =~= dl.remove(i));
        assert(es.remove(i).last() == es.last());
        assert(index_map(es.remove(i)) == index_map(dl.remove(i)).insert(
            es.last().key@,
            es.last().value@,
        ));
        assert(k != es.last().key@);
        assert(index_map(dl).remove(k).insert(es.last().key@, es.last().value@) =~= index_map(
            dl,
        ).insert(es.last().key@, es.last().value@).remove(k));
    }
}

/// Two entry vectors with the same keys and values (pointers may differ)
/// denote the same map.
pub proof fn lemma_index_map_same_kv(a: Seq<IndexEntry>, b: Seq<IndexEntry>)
    requires
        a.len() == b.len(),
        forall|i: int|
            0 <= i < a.len() ==> (#[trigger] a[i]).key@ == b[i].key@ && a[i].value@ == b[i].value@,
    ensures
        index_map(a) == index_map(b),
    decreases a.len(),
{
    if a.len() > 0 {
        assert(forall|i: int|
            0 <= i < a.drop_last().len() ==> (#[trigger] a.drop_last()[i]).key@
                == b.drop_last()[i].key@ && a.drop_last()[i].value@ == b.drop_last()[i].value@);
        lemma_index_map_same_kv(a.drop_last(), b.drop_last());
        assert(a[a.len() - 1].key@ == b[a.len() - 1].key@ && a[a.len() - 1].value@ == b[a.len()
            - 1].value@);
    }
}

/// How indexing shifts after removing entry `i`.
pub proof fn lemma_remove_indexing(es: Seq<IndexEntry>, i: int)
    requires
        0 <= i < es.len(),
    ensures
        es.remove(i).len() == es.len() - 1,
        forall|j: int|
            0 <= j < es.len() - 1 ==> #[trigger] es.remove(i)[j] == (if j < i {
                es[j]
            } else {
                es[j + 1]
            }),
{
}

/// Byte-wise key equality.
pub fn bytes_eq(a: &Vec<u8>, b: &Vec<u8>) -> (r: bool)
    ensures
        r == (a@ == b@),
{
    if a.len() != b.len() {
        return false;
    }
    let n = a.len();
    let mut i: usize = 0;
    while i < n
        invariant
            i <= n,
            n == a@.len(),
            a@.len() == b@.len(),
            forall|j: int| 0 <= j < i ==> a@[j] == b@[j],
        decreases n - i,
    {
        if a[i] != b[i] {
            return false;
        }
        i += 1;
    }
    proof {
        assert(a@ =~= b@);
    }
    true
}

/// Finds the entry for a key, if any.
pub fn find_entry(es: &Vec<IndexEntry>, key: &Vec<u8>) -> (r: Option<usize>)
    ensures
        match r {
            Some(i) => i < es@.len() && es@[i as int].key@ == key@,
            None => forall|i: int| 0 <= i < es@.len() ==> (#[trigger] es@[i]).key@ != key@,
        },
{
    let n = es.len();
    let mut i: usize = 0;
    while i < n
        invariant
            i <= n,
            n == es@.len(),
            forall|j: int| 0 <= j < i ==> (#[trigger] es@[j]).key@ != key@,
        decreases n - i,
    {
        if bytes_eq(&es[i].key, key) {
            return Some(i);
        }
        i += 1;
    }
    None
}

} // verus!
