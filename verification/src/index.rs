//! The in-memory index: a vector of entries with pairwise-distinct keys,
//! standing for a map from key bytes to the location of the key's most
//! recent live record.

use vstd::prelude::*;

use crate::codec::bytes_eq;
use crate::replay::EntryS;

verus! {

/// One index entry.  The value bytes stored at the location ride along as
/// ghost information so the index can be held to the replay of the log.
pub struct IndexEntry {
    pub key: Vec<u8>,
    pub generation: usize,
    pub offset: usize,
    pub length: usize,
    pub val: Ghost<Seq<u8>>,
}

/// The mathematical entry an exec entry stands for.
pub open spec fn entry_s(e: IndexEntry) -> EntryS {
    EntryS { gen: e.generation as int, off: e.offset as int, len: e.length as int, val: e.val@ }
}

/// No two entries share a key.
pub open spec fn keys_distinct(es: Seq<IndexEntry>) -> bool {
    forall|i: int, j: int| 0 <= i < j < es.len() ==> es[i].key@ != es[j].key@
}

/// The entries are exactly the map `m`, key for key.
pub open spec fn index_matches(es: Seq<IndexEntry>, m: Map<Seq<u8>, EntryS>) -> bool {
    &&& forall|i: int|
        0 <= i < es.len() ==> m.contains_key(es[i].key@) && m[es[i].key@] == entry_s(es[i])
    &&& forall|k: Seq<u8>|
        m.contains_key(k) ==> exists|i: int| 0 <= i < es.len() && es[i].key@ == k
}

/// Total length of the records the index points at: the live bytes.
pub open spec fn live_len(es: Seq<IndexEntry>) -> int
    decreases es.len(),
{
    if es.len() == 0 {
        0
    } else {
        live_len(es.drop_last()) + es.last().length
    }
}

pub proof fn lemma_live_len_push(es: Seq<IndexEntry>, e: IndexEntry)
    ensures
        live_len(es.push(e)) == live_len(es) + e.length,
{
    assert(es.push(e).drop_last() =~= es);
    assert(es.push(e).last() == e);
}

pub proof fn lemma_live_len_remove(es: Seq<IndexEntry>, i: int)
    requires
        0 <= i < es.len(),
    ensures
        live_len(es.remove(i)) == live_len(es) - es[i].length,
    decreases es.len(),
{
    if i == es.len() - 1 {
        assert(es.remove(i) =~= es.drop_last());
    } else {
        assert(es.remove(i).drop_last() =~= es.drop_last().remove(i));
        assert(es.remove(i).last() == es.last());
        lemma_live_len_remove(es.drop_last(), i);
    }
}

/// The live bytes of a prefix grow by one entry's length at a time.
pub proof fn lemma_live_len_take_snoc(es: Seq<IndexEntry>, i: int)
    requires
        0 <= i < es.len(),
    ensures
        live_len(es.take(i + 1)) == live_len(es.take(i)) + es[i].length,
{
    assert(es.take(i + 1).drop_last() =~= es.take(i));
    assert(es.take(i + 1).last() == es[i]);
}

/// Linear search for a key.
pub fn find_entry(es: &Vec<IndexEntry>, key: &Vec<u8>) -> (r: Option<usize>)
    ensures
        match r {
            Some(i) => i < es@.len() && es@[i as int].key@ == key@,
            None => forall|i: int| 0 <= i < es@.len() ==> es@[i].key@ != key@,
        },
{
    let mut i: usize = 0;
    while i < es.len()
        invariant
            i <= es@.len(),
            forall|j: int| 0 <= j < i ==> es@[j].key@ != key@,
        decreases es@.len() - i,
    {
        if bytes_eq(&es[i].key, key) {
            return Some(i);
        }
        i = i + 1;
    }
    None
}

/// Insert or replace the entry for `e.key`, reporting the replaced record's
/// length if the key was already present.
pub fn index_put(
    es: &mut Vec<IndexEntry>,
    e: IndexEntry,
    Ghost(m): Ghost<Map<Seq<u8>, EntryS>>,
) -> (replaced: Option<usize>)
    requires
        keys_distinct(old(es)@),
        index_matches(old(es)@, m),
    ensures
        keys_distinct(final(es)@),
        index_matches(final(es)@, m.insert(e.key@, entry_s(e))),
        match replaced {
            Some(l) => m.contains_key(e.key@) && m[e.key@].len == l && live_len(final(es)@)
                == live_len(old(es)@) - l + e.length,
            None => !m.contains_key(e.key@) && live_len(final(es)@) == live_len(old(es)@)
                + e.length && final(es)@ == old(es)@.push(e),
        },
{
    let ghost m2 = m.insert(e.key@, entry_s(e));
    match find_entry(es, &e.key) {
        Some(j) => {
            let l = es[j].length;
            proof {
                assert(m[e.key@] == entry_s(old(es)@[j as int]));
                lemma_live_len_remove(es@, j as int);
            }
            let ghost before = es@;
            es.remove(j);
            let ghost mid = es@;
            proof {
                lemma_live_len_push(mid, e);
                assert forall|a: int, b: int| 0 <= a < b < mid.len() implies mid[a].key@
                    != mid[b].key@ by {
                    let a0 = if a < j { a } else { a + 1 };
                    let b0 = if b < j { b } else { b + 1 };
                    assert(mid[a] == before[a0] && mid[b] == before[b0]);
                }
            }
            es.push(e);
            proof {
                let now = es@;
                assert(now.drop_last() =~= mid);
                assert forall|a: int, b: int| 0 <= a < b < now.len() implies now[a].key@
                    != now[b].key@ by {
                    if b < now.len() - 1 {
                        assert(now[a] == mid[a] && now[b] == mid[b]);
                    } else {
                        let a0 = if a < j { a } else { a + 1 };
                        assert(now[a] == before[a0]);
                        assert(before[a0].key@ != before[j as int].key@);
                    }
                }
                assert forall|i: int|
                    0 <= i < now.len() implies m2.contains_key(now[i].key@) && m2[now[i].key@]
                    == entry_s(now[i]) by {
                    if i < now.len() - 1 {
                        let i0 = if i < j { i } else { i + 1 };
                        assert(now[i] == before[i0]);
                        assert(before[i0].key@ != before[j as int].key@);
                    }
                }
                assert forall|k: Seq<u8>| m2.contains_key(k) implies exists|i: int|
                    0 <= i < now.len() && now[i].key@ == k by {
                    if k == e.key@ {
                        assert(now[now.len() - 1].key@ == k);
                    } else {
                        let i0 = choose|i0: int| 0 <= i0 < before.len() && before[i0].key@ == k;
                        let i = if i0 < j { i0 } else { i0 - 1 };
                        assert(now[i] == before[i0]);
                    }
                }
            }
            Some(l)
        },
        None => {
            proof {
                lemma_live_len_push(es@, e);
            }
            let ghost before = es@;
            es.push(e);
            proof {
                let now = es@;
                assert forall|a: int, b: int| 0 <= a < b < now.len() implies now[a].key@
                    != now[b].key@ by {
                    if b < now.len() - 1 {
                        assert(now[a] == before[a] && now[b] == before[b]);
                    } else {
                        assert(now[a] == before[a]);
                    }
                }
                assert forall|i: int|
                    0 <= i < now.len() implies m2.contains_key(now[i].key@) && m2[now[i].key@]
                    == entry_s(now[i]) by {
                    if i < now.len() - 1 {
                        assert(now[i] == before[i]);
                    }
                }
                assert forall|k: Seq<u8>| m2.contains_key(k) implies exists|i: int|
                    0 <= i < now.len() && now[i].key@ == k by {
                    if k == e.key@ {
                        assert(now[now.len() - 1].key@ == k);
                    } else {
                        let i0 = choose|i0: int| 0 <= i0 < before.len() && before[i0].key@ == k;
                        assert(now[i0] == before[i0]);
                    }
                }
            }
            None
        },
    }
}

/// Remove the entry for `key` if present, reporting the removed record's
/// length.
pub fn index_remove(
    es: &mut Vec<IndexEntry>,
    key: &Vec<u8>,
    Ghost(m): Ghost<Map<Seq<u8>, EntryS>>,
) -> (removed: Option<usize>)
    requires
        keys_distinct(old(es)@),
        index_matches(old(es)@, m),
    ensures
        keys_distinct(final(es)@),
        match removed {
            Some(l) => m.contains_key(key@) && m[key@].len == l && index_matches(
                final(es)@,
                m.remove(key@),
            ) && live_len(final(es)@) == live_len(old(es)@) - l,
            None => !m.contains_key(key@) && final(es)@ == old(es)@ && index_matches(
                final(es)@,
                m,
            ),
        },
{
    let ghost m2 = m.remove(key@);
    match find_entry(es, key) {
        Some(j) => {
            let l = es[j].length;
            proof {
                assert(m[key@] == entry_s(old(es)@[j as int]));
                lemma_live_len_remove(es@, j as int);
            }
            let ghost before = es@;
            es.remove(j);
            proof {
                let now = es@;
                assert forall|a: int, b: int| 0 <= a < b < now.len() implies now[a].key@
                    != now[b].key@ by {
                    let a0 = if a < j { a } else { a + 1 };
                    let b0 = if b < j { b } else { b + 1 };
                    assert(now[a] == before[a0] && now[b] == before[b0]);
                }
                assert forall|i: int|
                    0 <= i < now.len() implies m2.contains_key(now[i].key@) && m2[now[i].key@]
                    == entry_s(now[i]) by {
                    let i0 = if i < j { i } else { i + 1 };
                    assert(now[i] == before[i0]);
                    assert(before[i0].key@ != before[j as int].key@);
                }
                assert forall|k: Seq<u8>| m2.contains_key(k) implies exists|i: int|
                    0 <= i < now.len() && now[i].key@ == k by {
                    let i0 = choose|i0: int| 0 <= i0 < before.len() && before[i0].key@ == k;
                    assert(i0 != j);
                    let i = if i0 < j { i0 } else { i0 - 1 };
                    assert(now[i] == before[i0]);
                }
            }
            Some(l)
        },
        None => {
            None
        },
    }
}

} // verus!
