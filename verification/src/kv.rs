//! Small association lists keyed by byte strings, with replace-on-insert
//! semantics. Header, query-parameter and path-parameter maps are stored
//! this way; their mathematical reading is a `Map` built by `kv_map`.

use vstd::prelude::*;
use crate::bytes::bytes_eq;

verus! {

/// Entry list of a map from byte string to byte string.
pub open spec fn kv_view(entries: Vec<(Vec<u8>, Vec<u8>)>) -> Seq<(Seq<u8>, Seq<u8>)> {
    Seq::new(entries@.len(), |i: int| (entries@[i].0@, entries@[i].1@))
}

/// Entry list of a map from byte string to optional byte string.
pub open spec fn kvo_view(entries: Vec<(Vec<u8>, Option<Vec<u8>>)>) -> Seq<
    (Seq<u8>, Option<Seq<u8>>),
> {
    Seq::new(
        entries@.len(),
        |i: int|
            (
                entries@[i].0@,
                match entries@[i].1 {
                    Some(v) => Some(v@),
                    None => None,
                },
            ),
    )
}

/// The value bound to `key`: the first entry with that key (entry lists built
/// by `kv_upsert` hold each key at most once).
pub open spec fn kv_get<V>(entries: Seq<(Seq<u8>, V)>, key: Seq<u8>) -> Option<V>
    decreases entries.len(),
{
    if entries.len() == 0 {
        None
    } else if entries[0].0 == key {
        Some(entries[0].1)
    } else {
        kv_get(entries.skip(1), key)
    }
}

/// Bind `key` to `value`, replacing an existing entry in place or appending.
pub open spec fn kv_upsert<V>(entries: Seq<(Seq<u8>, V)>, key: Seq<u8>, value: V) -> Seq<
    (Seq<u8>, V),
>
    decreases entries.len(),
{
    if entries.len() == 0 {
        seq![(key, value)]
    } else if entries[0].0 == key {
        seq![(key, value)] + entries.skip(1)
    } else {
        seq![entries[0]] + kv_upsert(entries.skip(1), key, value)
    }
}

/// The finite map an entry list stands for; a later entry overrides an
/// earlier one with the same key.
pub open spec fn kv_map<V>(entries: Seq<(Seq<u8>, V)>) -> Map<Seq<u8>, V>
    decreases entries.len(),
{
    if entries.len() == 0 {
        Map::empty()
    } else {
        kv_map(entries.drop_last()).insert(entries.last().0, entries.last().1)
    }
}

pub open spec fn kv_keys_unique<V>(entries: Seq<(Seq<u8>, V)>) -> bool {
    forall|i: int, j: int|
        0 <= i < j < entries.len() ==> (#[trigger] entries[i]).0 != (#[trigger] entries[j]).0
}

pub proof fn lemma_kv_get_at<V>(entries: Seq<(Seq<u8>, V)>, key: Seq<u8>, j: int)
    requires
        0 <= j < entries.len(),
        entries[j].0 == key,
        forall|i: int| 0 <= i < j ==> (#[trigger] entries[i]).0 != key,
    ensures
        kv_get(entries, key) == Some(entries[j].1),
    decreases j,
{
    if j > 0 {
        lemma_kv_get_at(entries.skip(1), key, j - 1);
    }
}

pub proof fn lemma_kv_get_missing<V>(entries: Seq<(Seq<u8>, V)>, key: Seq<u8>)
    requires
        forall|i: int| 0 <= i < entries.len() ==> (#[trigger] entries[i]).0 != key,
    ensures
        kv_get(entries, key) == None::<V>,
    decreases entries.len(),
{
    if entries.len() > 0 {
        lemma_kv_get_missing(entries.skip(1), key);
    }
}

pub proof fn lemma_kv_upsert_at<V>(entries: Seq<(Seq<u8>, V)>, key: Seq<u8>, value: V, j: int)
    requires
        0 <= j < entries.len(),
        entries[j].0 == key,
        forall|i: int| 0 <= i < j ==> (#[trigger] entries[i]).0 != key,
    ensures
        kv_upsert(entries, key, value) =~= entries.update(j, (key, value)),
    decreases j,
{
    if j == 0 {
        assert(kv_upsert(entries, key, value) =~= entries.update(0, (key, value)));
    } else {
        lemma_kv_upsert_at(entries.skip(1), key, value, j - 1);
        assert(kv_upsert(entries, key, value) =~= entries.update(j, (key, value)));
    }
}

pub proof fn lemma_kv_upsert_missing<V>(entries: Seq<(Seq<u8>, V)>, key: Seq<u8>, value: V)
    requires
        forall|i: int| 0 <= i < entries.len() ==> (#[trigger] entries[i]).0 != key,
    ensures
        kv_upsert(entries, key, value) =~= entries.push((key, value)),
    decreases entries.len(),
{
    if entries.len() == 0 {
        assert(kv_upsert(entries, key, value) =~= entries.push((key, value)));
    } else {
        lemma_kv_upsert_missing(entries.skip(1), key, value);
        assert(kv_upsert(entries, key, value) =~= entries.push((key, value)));
    }
}

/// Looking up the key just bound finds the new value.
pub proof fn lemma_kv_get_upsert_same<V>(entries: Seq<(Seq<u8>, V)>, key: Seq<u8>, value: V)
    ensures
        kv_get(kv_upsert(entries, key, value), key) == Some(value),
    decreases entries.len(),
{
    if entries.len() > 0 && entries[0].0 != key {
        lemma_kv_get_upsert_same(entries.skip(1), key, value);
        assert((seq![entries[0]] + kv_upsert(entries.skip(1), key, value)).skip(1) =~= kv_upsert(
            entries.skip(1),
            key,
            value,
        ));
    }
}

/// Binding one key leaves every other key's value alone.
pub proof fn lemma_kv_get_upsert_other<V>(
    entries: Seq<(Seq<u8>, V)>,
    key: Seq<u8>,
    value: V,
    other: Seq<u8>,
)
    requires
        other != key,
    ensures
        kv_get(kv_upsert(entries, key, value), other) == kv_get(entries, other),
    decreases entries.len(),
{
    if entries.len() == 0 {
        assert(kv_upsert(entries, key, value).skip(1) =~= Seq::<(Seq<u8>, V)>::empty());
        assert(kv_get(Seq::<(Seq<u8>, V)>::empty(), other) == None::<V>);
    } else if entries[0].0 == key {
        assert(kv_upsert(entries, key, value).skip(1) =~= entries.skip(1));
    } else {
        lemma_kv_get_upsert_other(entries.skip(1), key, value, other);
        assert((seq![entries[0]] + kv_upsert(entries.skip(1), key, value)).skip(1) =~= kv_upsert(
            entries.skip(1),
            key,
            value,
        ));
    }
}

/// A found value sits at some entry.
pub proof fn lemma_kv_get_some_index<V>(entries: Seq<(Seq<u8>, V)>, key: Seq<u8>)
    requires
        kv_get(entries, key) is Some,
    ensures
        exists|j: int| 0 <= j < entries.len() && (#[trigger] entries[j]).0 == key,
    decreases entries.len(),
{
    if entries.len() > 0 && entries[0].0 != key {
        lemma_kv_get_some_index(entries.skip(1), key);
        let j = choose|j: int|
            0 <= j < entries.skip(1).len() && (#[trigger] entries.skip(1)[j]).0 == key;
        assert(entries[j + 1].0 == key);
    }
}

/// Index of the first entry with the given key.
pub fn kv_find(entries: &Vec<(Vec<u8>, Vec<u8>)>, key: &[u8]) -> (r: Option<usize>)
    ensures
        match r {
            Some(j) => j < entries@.len() && kv_view(*entries)[j as int].0 == key@ && forall|
                i: int,
            |
                0 <= i < j ==> (#[trigger] kv_view(*entries)[i]).0 != key@,
            None => forall|i: int|
                0 <= i < entries@.len() ==> (#[trigger] kv_view(*entries)[i]).0 != key@,
        },
{
    let mut j: usize = 0;
    while j < entries.len()
        invariant
            j <= entries@.len(),
            forall|i: int| 0 <= i < j ==> (#[trigger] kv_view(*entries)[i]).0 != key@,
        decreases entries@.len() - j,
    {
        if bytes_eq(entries[j].0.as_slice(), key) {
            return Some(j);
        }
        j += 1;
    }
    None
}

/// Bind `key` to `value` in the entry list, replacing or appending.
pub fn kv_set(entries: &mut Vec<(Vec<u8>, Vec<u8>)>, key: Vec<u8>, value: Vec<u8>)
    ensures
        kv_view(*final(entries)) == kv_upsert(kv_view(*old(entries)), key@, value@),
{
    let ghost kb = key@;
    let ghost vb = value@;
    let ghost before = kv_view(*entries);
    match kv_find(entries, key.as_slice()) {
        Some(j) => {
            entries.remove(j);
            entries.insert(j, (key, value));
            proof {
                lemma_kv_upsert_at(before, kb, vb, j as int);
                assert(kv_view(*entries) =~= before.update(j as int, (kb, vb)));
            }
        },
        None => {
            entries.push((key, value));
            proof {
                lemma_kv_upsert_missing(before, kb, vb);
                assert(kv_view(*entries) =~= before.push((kb, vb)));
            }
        },
    }
}

/// The value bound to `key`, if any.
pub fn kv_lookup<'a>(entries: &'a Vec<(Vec<u8>, Vec<u8>)>, key: &[u8]) -> (r: Option<&'a Vec<u8>>)
    ensures
        match r {
            Some(v) => kv_get(kv_view(*entries), key@) == Some(v@),
            None => kv_get(kv_view(*entries), key@) is None,
        },
{
    match kv_find(entries, key) {
        Some(j) => {
            proof {
                lemma_kv_get_at(kv_view(*entries), key@, j as int);
            }
            Some(&entries[j].1)
        },
        None => {
            proof {
                lemma_kv_get_missing(kv_view(*entries), key@);
            }
            None
        },
    }
}

/// Index of the first entry with the given key, for optional-valued entries.
pub fn kvo_find(entries: &Vec<(Vec<u8>, Option<Vec<u8>>)>, key: &[u8]) -> (r: Option<usize>)
    ensures
        match r {
            Some(j) => j < entries@.len() && kvo_view(*entries)[j as int].0 == key@ && forall|
                i: int,
            |
                0 <= i < j ==> (#[trigger] kvo_view(*entries)[i]).0 != key@,
            None => forall|i: int|
                0 <= i < entries@.len() ==> (#[trigger] kvo_view(*entries)[i]).0 != key@,
        },
{
    let mut j: usize = 0;
    while j < entries.len()
        invariant
            j <= entries@.len(),
            forall|i: int| 0 <= i < j ==> (#[trigger] kvo_view(*entries)[i]).0 != key@,
        decreases entries@.len() - j,
    {
        if bytes_eq(entries[j].0.as_slice(), key) {
            return Some(j);
        }
        j += 1;
    }
    None
}

/// Bind `key` to `value` in an optional-valued entry list.
pub fn kvo_set(entries: &mut Vec<(Vec<u8>, Option<Vec<u8>>)>, key: Vec<u8>, value: Option<Vec<u8>>)
    ensures
        kvo_view(*final(entries)) == kv_upsert(
            kvo_view(*old(entries)),
            key@,
            match value {
                Some(v) => Some(v@),
                None => None,
            },
        ),
{
    let ghost kb = key@;
    let ghost vb: Option<Seq<u8>> = match value {
        Some(ref v) => Some(v@),
        None => None,
    };
    let ghost before = kvo_view(*entries);
    match kvo_find(entries, key.as_slice()) {
        Some(j) => {
            entries.remove(j);
            entries.insert(j, (key, value));
            proof {
                lemma_kv_upsert_at(before, kb, vb, j as int);
                assert(kvo_view(*entries) =~= before.update(j as int, (kb, vb)));
            }
        },
        None => {
            entries.push((key, value));
            proof {
                lemma_kv_upsert_missing(before, kb, vb);
                assert(kvo_view(*entries) =~= before.push((kb, vb)));
            }
        },
    }
}

/// The optional value bound to `key`, if the key is present.
pub fn kvo_lookup<'a>(entries: &'a Vec<(Vec<u8>, Option<Vec<u8>>)>, key: &[u8]) -> (r: Option<
    &'a Option<Vec<u8>>,
>)
    ensures
        match r {
            Some(v) => kv_get(kvo_view(*entries), key@) == Some(
                match v {
                    Some(x) => Some(x@),
                    None => None::<Seq<u8>>,
                },
            ),
            None => kv_get(kvo_view(*entries), key@) is None,
        },
{
    match kvo_find(entries, key) {
        Some(j) => {
            proof {
                lemma_kv_get_at(kvo_view(*entries), key@, j as int);
            }
            Some(&entries[j].1)
        },
        None => {
            proof {
                lemma_kv_get_missing(kvo_view(*entries), key@);
            }
            None
        },
    }
}

} // verus!
