//! Maps fold to a sorted map from folded keys to store keys: each value is folded
//! and put in the store on its own.
use crate::ser::{
    casserole_stored,
    decasserole_stored,
    lemma_restores_stored_kept,
    lemma_restores_kept,
    lemma_restores_stored_unique,
    lawful,
    stored_apart,
    restores_stored,
    Casserole,
    Contents,
    Encode,
};
use crate::encoding::bytes_equal;
use crate::types::map_text::{
    encodings_apart,
    entries_text,
    key_text,
    key_texts_apart,
    lemma_entries_apart,
    lemma_entries_congruent,
    lemma_entries_front,
    lemma_encodings_apart_string,
    lemma_key_texts_apart_u64,
    lemma_entries_nonempty,
    map_head,
    map_tail,
    read_key_at,
    read_value_at,
};
use crate::types::order::{
    in_order,
    lemma_in_order,
    lemma_in_order_exists,
    lemma_increasing_seq_strict,
    strictly_increasing,
};
use crate::digest::content_key;
use crate::store::Store;
use std::collections::{BTreeMap, HashMap};
use std::hash::Hash;
use vstd::laws_cmp::obeys_cmp;
use vstd::laws_eq::obeys_concrete_eq;
use vstd::prelude::*;
use vstd::std_specs::btree::spec_btree_map_iter;
use vstd::std_specs::hash::{obeys_key_model, spec_hash_map_iter};
use vstd::std_specs::iter::IteratorSpec;

verus! {

broadcast use {
    vstd::std_specs::btree::group_btree_axioms,
    vstd::std_specs::hash::group_hash_axioms,
    vstd::map_lib::lemma_submap_of_trans,
};

/// The folded form of a map: each folded key leads to the store key under which the
/// folded value was put.
pub struct StoredValuesBTreeMap<S: Store, K: Casserole<S>> where K::Target: Ord {
    map: BTreeMap<K::Target, S::Key>,
}

impl<S: Store, K: Casserole<S>> StoredValuesBTreeMap<S, K> where K::Target: Ord {
    /// The store keys by folded key.
    pub closed spec fn stored(&self) -> Map<K::Target, S::Key> {
        self.map@
    }

    /// Builds the folded form from its map of store keys by folded key.
    pub fn from_map(map: BTreeMap<K::Target, S::Key>) -> (folded: Self)
        ensures
            folded.stored() == map@,
    {
        StoredValuesBTreeMap { map }
    }

    /// The map of store keys by folded key.
    pub fn as_map(&self) -> (map: &BTreeMap<K::Target, S::Key>)
        ensures
            map@ == self.stored(),
    {
        &self.map
    }
}

/// The folded key `folded` and the store key `key` stand for the entry `(k, v)`.
pub open spec fn entry_restores<S: Store, K: Casserole<S>, V: Casserole<S>>(
    folded: K::Target,
    key: S::Key,
    contents: Contents<S>,
    k: K,
    v: V,
) -> bool where V::Target: Encode {
    K::restores(folded, contents, k) && restores_stored::<S, V>(key@, contents, v)
}

/// Folded keys restore at most one key each.
pub open spec fn keys_fold_apart<S: Store, K: Casserole<S>>() -> bool {
    forall|folded: K::Target, contents: Contents<S>, k1: K, k2: K|
        #![trigger K::restores(folded, contents, k1), K::restores(folded, contents, k2)]
        K::restores(folded, contents, k1) && K::restores(folded, contents, k2) ==> k1 == k2
}

/// `stored` (store keys by folded key) stands for the map `m`: each folded entry
/// stands for an entry of `m`, each key of `m` has a folded key, and no two folded
/// keys restore the same key.
pub open spec fn map_restores<S: Store, K: Casserole<S>, V: Casserole<S>>(
    stored: Map<K::Target, S::Key>,
    contents: Contents<S>,
    m: Map<K, V>,
) -> bool where V::Target: Encode {
    &&& forall|folded: K::Target| #[trigger]
        stored.contains_key(folded) ==> exists|k: K|
            m.contains_key(k) && #[trigger] entry_restores::<S, K, V>(
                folded,
                stored[folded],
                contents,
                k,
                m[k],
            )
    &&& forall|k: K| #[trigger]
        m.contains_key(k) ==> exists|folded: K::Target|
            stored.contains_key(folded) && #[trigger] K::restores(folded, contents, k)
    &&& forall|f1: K::Target, f2: K::Target, k: K|
        #![trigger K::restores(f1, contents, k), K::restores(f2, contents, k)]
        stored.contains_key(f1) && stored.contains_key(f2) && K::restores(f1, contents, k)
            && K::restores(f2, contents, k) ==> f1 == f2
}

/// The parts of a map type behave as the laws need: keys and values are lawful, the
/// values' targets can be kept in a store, and folded keys restore at most one key each.
pub open spec fn maps_foldable<S: Store, K: Casserole<S>, V: Casserole<S>>() -> bool where
    V::Target: Encode,
 {
    &&& lawful::<S, K>()
    &&& lawful::<S, V>()
    &&& stored_apart::<S, V>()
    &&& keys_fold_apart::<S, K>()
}

/// Two maps hold the same keys, and the `same` values under each.
pub open spec fn map_same<S: Store, K: Casserole<S>, V: Casserole<S>>(a: Map<K, V>, b: Map<K, V>) -> bool {
    &&& a.dom() == b.dom()
    &&& forall|k: K| #[trigger] a.contains_key(k) ==> V::same(a[k], b[k])
}

/// Store keys by folded key restore only maps that are the `same`.
pub proof fn lemma_map_restores_unique<S: Store, K: Casserole<S>, V: Casserole<S>>(
    t: Map<K::Target, S::Key>,
    contents: Contents<S>,
    a: Map<K, V>,
    b: Map<K, V>,
) where V::Target: Encode
    requires
        maps_foldable::<S, K, V>(),
        map_restores::<S, K, V>(t, contents, a),
        map_restores::<S, K, V>(t, contents, b),
    ensures
        map_same::<S, K, V>(a, b),
{
    assert forall|k: K| a.contains_key(k) implies b.contains_key(k) && V::same(
        a[k],
        b[k],
    ) by {
        let f = choose|f: K::Target| t.contains_key(f) && #[trigger] K::restores(f, contents, k);
        let kb = choose|kb: K|
            b.contains_key(kb) && #[trigger] entry_restores::<S, K, V>(
                f,
                t[f],
                contents,
                kb,
                b[kb],
            );
        let ka = choose|ka: K|
            a.contains_key(ka) && #[trigger] entry_restores::<S, K, V>(
                f,
                t[f],
                contents,
                ka,
                a[ka],
            );
        assert(K::restores(f, contents, kb));
        assert(K::restores(f, contents, ka));
        assert(kb == k);
        assert(ka == k);
        lemma_restores_stored_unique::<S, V>(t[f]@, contents, a[k], b[k]);
    }
    assert forall|k: K| b.contains_key(k) implies a.contains_key(k) by {
        let f = choose|f: K::Target| t.contains_key(f) && #[trigger] K::restores(f, contents, k);
        let ka = choose|ka: K|
            a.contains_key(ka) && #[trigger] entry_restores::<S, K, V>(
                f,
                t[f],
                contents,
                ka,
                a[ka],
            );
        assert(K::restores(f, contents, ka));
        assert(ka == k);
    }
    assert(a.dom() =~= b.dom());
}

/// What store keys by folded key restore, they restore in any store that holds more.
pub proof fn lemma_map_restores_kept<S: Store, K: Casserole<S>, V: Casserole<S>>(
    t: Map<K::Target, S::Key>,
    small: Contents<S>,
    large: Contents<S>,
    m: Map<K, V>,
) where V::Target: Encode
    requires
        maps_foldable::<S, K, V>(),
        map_restores::<S, K, V>(t, small, m),
        small.submap_of(large),
    ensures
        map_restores::<S, K, V>(t, large, m),
{
    assert forall|folded: K::Target| #[trigger] t.contains_key(folded) implies exists|k: K|
        m.contains_key(k) && #[trigger] entry_restores::<S, K, V>(
            folded,
            t[folded],
            large,
            k,
            m[k],
        ) by {
        let k = choose|k: K|
            m.contains_key(k) && #[trigger] entry_restores::<S, K, V>(
                folded,
                t[folded],
                small,
                k,
                m[k],
            );
        lemma_restores_kept::<S, K>(folded, small, large, k);
        lemma_restores_stored_kept::<S, V>(t[folded]@, small, large, m[k]);
        assert(entry_restores::<S, K, V>(folded, t[folded], large, k, m[k]));
    }
    assert forall|k: K| #[trigger] m.contains_key(k) implies exists|folded: K::Target|
        t.contains_key(folded) && #[trigger] K::restores(folded, large, k) by {
        let folded = choose|folded: K::Target|
            t.contains_key(folded) && #[trigger] K::restores(folded, small, k);
        lemma_restores_kept::<S, K>(folded, small, large, k);
    }
    assert forall|f1: K::Target, f2: K::Target, k: K|
        t.contains_key(f1) && t.contains_key(f2) && #[trigger] K::restores(f1, large, k)
            && #[trigger] K::restores(f2, large, k) implies f1 == f2 by {
        let k1 = choose|k1: K|
            m.contains_key(k1) && #[trigger] entry_restores::<S, K, V>(
                f1,
                t[f1],
                small,
                k1,
                m[k1],
            );
        let k2 = choose|k2: K|
            m.contains_key(k2) && #[trigger] entry_restores::<S, K, V>(
                f2,
                t[f2],
                small,
                k2,
                m[k2],
            );
        lemma_restores_kept::<S, K>(f1, small, large, k1);
        lemma_restores_kept::<S, K>(f2, small, large, k2);
        assert(K::restores(f1, large, k1));
        assert(K::restores(f2, large, k2));
        assert(k1 == k);
        assert(k2 == k);
        assert(K::restores(f1, small, k1));
        assert(K::restores(f2, small, k1));
    }
}

/// One more entry gathered: what the first `i` entries' folded keys and store keys
/// stood for before the fold of entry `i` they still stand for after it, the folded key
/// of entry `i` stands for its key, and it is none of those gathered before.
proof fn lemma_gathered_kept<S: Store, K: Casserole<S>, V: Casserole<S>>(
    items: Seq<(&K, &V)>,
    i: int,
    folded_keys: Seq<K::Target>,
    old_map: Map<K::Target, S::Key>,
    before: Contents<S>,
    middle: Contents<S>,
    after: Contents<S>,
    folded: K::Target,
    m: Map<K, V>,
) where V::Target: Encode
    requires
        maps_foldable::<S, K, V>(),
        items.no_duplicates(),
        0 <= i < items.len(),
        forall|j: int|
            #![trigger items[j]]
            0 <= j < items.len() ==> m.contains_key(*items[j].0) && m[*items[j].0] == *items[j].1,
        folded_keys.len() == i,
        forall|f: K::Target| #[trigger]
            old_map.contains_key(f) ==> exists|j: int| 0 <= j < i && #[trigger] folded_keys[j] == f,
        forall|j: int|
            0 <= j < i ==> #[trigger] entry_restores::<S, K, V>(
                folded_keys[j],
                old_map[folded_keys[j]],
                before,
                *items[j].0,
                *items[j].1,
            ),
        before.submap_of(middle),
        middle.submap_of(after),
        K::restores(folded, middle, *items[i].0),
    ensures
        forall|j: int|
            0 <= j < i ==> #[trigger] entry_restores::<S, K, V>(
                folded_keys[j],
                old_map[folded_keys[j]],
                after,
                *items[j].0,
                *items[j].1,
            ),
        K::restores(folded, after, *items[i].0),
        !old_map.contains_key(folded),
{
    lemma_restores_kept::<S, K>(folded, middle, after, *items[i].0);
    assert forall|j: int| 0 <= j < i implies #[trigger] entry_restores::<S, K, V>(
        folded_keys[j],
        old_map[folded_keys[j]],
        after,
        *items[j].0,
        *items[j].1,
    ) by {
        assert(entry_restores::<S, K, V>(
            folded_keys[j],
            old_map[folded_keys[j]],
            before,
            *items[j].0,
            *items[j].1,
        ));
        lemma_restores_kept::<S, K>(folded_keys[j], before, after, *items[j].0);
        lemma_restores_stored_kept::<S, V>(old_map[folded_keys[j]]@, before, after, *items[j].1);
    }
    if old_map.contains_key(folded) {
        let j = choose|j: int| 0 <= j < i && #[trigger] folded_keys[j] == folded;
        assert(entry_restores::<S, K, V>(
            folded_keys[j],
            old_map[folded_keys[j]],
            after,
            *items[j].0,
            *items[j].1,
        ));
        assert(K::restores(folded, after, *items[j].0));
        assert(*items[j].0 == *items[i].0);
        assert(m[*items[j].0] == *items[j].1);
        assert(m[*items[i].0] == *items[i].1);
        assert(items[j] == items[i]);
    }
}

/// The folded keys gathered so far, `folded_keys[j]` for entry `j` of `items`, are those
/// of `map`, and unless the store clashed, each with its store key stands for its entry.
spec fn gathered<S: Store, K: Casserole<S>, V: Casserole<S>>(
    items: Seq<(&K, &V)>,
    folded_keys: Seq<K::Target>,
    map: Map<K::Target, S::Key>,
    contents: Contents<S>,
    clashed: bool,
) -> bool where V::Target: Encode {
    &&& forall|j: int| 0 <= j < folded_keys.len() ==> map.contains_key(#[trigger] folded_keys[j])
    &&& forall|f: K::Target| #[trigger]
        map.contains_key(f) ==> exists|j: int| 0 <= j < folded_keys.len() && #[trigger] folded_keys[j] == f
    &&& !clashed ==> forall|j: int|
        0 <= j < folded_keys.len() ==> #[trigger] entry_restores::<S, K, V>(
            folded_keys[j],
            map[folded_keys[j]],
            contents,
            *items[j].0,
            *items[j].1,
        )
}

/// One more entry gathered: the folded key of entry `i`, with the store key of its
/// value, joins those gathered before.
proof fn lemma_gathering_step<S: Store, K: Casserole<S>, V: Casserole<S>>(
    items: Seq<(&K, &V)>,
    i: int,
    folded_keys: Seq<K::Target>,
    old_map: Map<K::Target, S::Key>,
    before: Contents<S>,
    middle: Contents<S>,
    after: Contents<S>,
    clashed: bool,
    folded: K::Target,
    stored: S::Key,
    m: Map<K, V>,
) where V::Target: Encode
    requires
        maps_foldable::<S, K, V>(),
        items.no_duplicates(),
        0 <= i < items.len(),
        forall|j: int|
            #![trigger items[j]]
            0 <= j < items.len() ==> m.contains_key(*items[j].0) && m[*items[j].0] == *items[j].1,
        folded_keys.len() == i,
        exists|c: bool| (!clashed ==> !c) && gathered::<S, K, V>(items, folded_keys, old_map, before, c),
        before.submap_of(middle),
        middle.submap_of(after),
        !clashed ==> K::restores(folded, middle, *items[i].0),
        !clashed ==> restores_stored::<S, V>(stored@, after, *items[i].1),
    ensures
        gathered::<S, K, V>(
            items,
            folded_keys.push(folded),
            old_map.insert(folded, stored),
            after,
            clashed,
        ),
{
    let c = choose|c: bool| (!clashed ==> !c) && gathered::<S, K, V>(items, folded_keys, old_map, before, c);
    let map = old_map.insert(folded, stored);
    let nk = folded_keys.push(folded);
    if !clashed {
        lemma_gathered_kept::<S, K, V>(
            items,
            i,
            folded_keys,
            old_map,
            before,
            middle,
            after,
            folded,
            m,
        );
    }
    assert forall|j: int| 0 <= j < nk.len() implies map.contains_key(#[trigger] nk[j]) by {
        if j < i {
            assert(folded_keys[j] == nk[j]);
        }
    }
    assert forall|f: K::Target| #[trigger] map.contains_key(f) implies exists|j: int|
        0 <= j < nk.len() && #[trigger] nk[j] == f by {
        if f == folded {
            assert(nk[i] == f);
        } else {
            assert(old_map.contains_key(f));
            let j = choose|j: int| 0 <= j < i && #[trigger] folded_keys[j] == f;
            assert(nk[j] == f);
        }
    }
    if !clashed {
        assert forall|j: int| 0 <= j < nk.len() implies #[trigger] entry_restores::<S, K, V>(
            nk[j],
            map[nk[j]],
            after,
            *items[j].0,
            *items[j].1,
        ) by {
            if j < i {
                assert(nk[j] == folded_keys[j]);
                assert(folded_keys[j] != folded);
            }
        }
    }
}

/// Folded keys gathered for the entries of `m`, in the order in which `items` lists
/// them, with the store keys filed under them in `t`, stand for `m`.
proof fn lemma_gathered_restores<S: Store, K: Casserole<S>, V: Casserole<S>>(
    items: Seq<(&K, &V)>,
    folded_keys: Seq<K::Target>,
    t: Map<K::Target, S::Key>,
    end: Contents<S>,
    m: Map<K, V>,
) where V::Target: Encode
    requires
        keys_fold_apart::<S, K>(),
        items.no_duplicates(),
        forall|j: int|
            #![trigger items[j]]
            0 <= j < items.len() ==> m.contains_key(*items[j].0) && m[*items[j].0] == *items[j].1,
        forall|k: K| #[trigger] m.contains_key(k) ==> items.contains((&k, &m[k])),
        folded_keys.len() == items.len(),
        forall|f: K::Target| #[trigger]
            t.contains_key(f) ==> exists|j: int| 0 <= j < items.len() && #[trigger] folded_keys[j] == f,
        forall|j: int| 0 <= j < items.len() ==> t.contains_key(#[trigger] folded_keys[j]),
        forall|j: int|
            0 <= j < items.len() ==> #[trigger] entry_restores::<S, K, V>(
                folded_keys[j],
                t[folded_keys[j]],
                end,
                *items[j].0,
                *items[j].1,
            ),
    ensures
        map_restores::<S, K, V>(t, end, m),
{
    assert forall|f: K::Target| #[trigger] t.contains_key(f) implies exists|k: K|
        m.contains_key(k) && #[trigger] entry_restores::<S, K, V>(f, t[f], end, k, m[k]) by {
        let j = choose|j: int| 0 <= j < items.len() && #[trigger] folded_keys[j] == f;
        assert(m.contains_key(*items[j].0));
        assert(entry_restores::<S, K, V>(f, t[f], end, *items[j].0, m[*items[j].0]));
    }
    assert forall|k: K| #[trigger] m.contains_key(k) implies exists|f: K::Target|
        t.contains_key(f) && #[trigger] K::restores(f, end, k) by {
        assert(items.contains((&k, &m[k])));
        let j = choose|j: int| 0 <= j < items.len() && items[j] == (&k, &m[k]);
        assert(entry_restores::<S, K, V>(
            folded_keys[j],
            t[folded_keys[j]],
            end,
            *items[j].0,
            *items[j].1,
        ));
    }
    assert forall|f1: K::Target, f2: K::Target, k: K|
        t.contains_key(f1) && t.contains_key(f2) && #[trigger] K::restores(f1, end, k)
            && #[trigger] K::restores(f2, end, k) implies f1 == f2 by {
        let j1 = choose|j: int| 0 <= j < items.len() && #[trigger] folded_keys[j] == f1;
        let j2 = choose|j: int| 0 <= j < items.len() && #[trigger] folded_keys[j] == f2;
        assert(entry_restores::<S, K, V>(
            folded_keys[j1],
            t[folded_keys[j1]],
            end,
            *items[j1].0,
            *items[j1].1,
        ));
        assert(entry_restores::<S, K, V>(
            folded_keys[j2],
            t[folded_keys[j2]],
            end,
            *items[j2].0,
            *items[j2].1,
        ));
        assert(*items[j1].0 == k);
        assert(*items[j2].0 == k);
        assert(m[*items[j1].0] == *items[j1].1);
        assert(m[*items[j2].0] == *items[j2].1);
        assert(items[j1] == items[j2]);
    }
}

/// The keys restored so far, `keys[j]` from entry `j` of `items`, are those of `v`, each
/// under the value restored from that entry.
spec fn restored_so_far<S: Store, K: Casserole<S>, V: Casserole<S>>(
    items: Seq<(&K::Target, &S::Key)>,
    keys: Seq<K>,
    v: Map<K, V>,
    contents: Contents<S>,
) -> bool where V::Target: Encode {
    &&& forall|j: int| 0 <= j < keys.len() ==> v.contains_key(#[trigger] keys[j])
    &&& forall|j: int|
        0 <= j < keys.len() ==> #[trigger] entry_restores::<S, K, V>(
            *items[j].0,
            *items[j].1,
            contents,
            keys[j],
            v[keys[j]],
        )
    &&& forall|k: K| #[trigger]
        v.contains_key(k) ==> exists|j: int| 0 <= j < keys.len() && #[trigger] keys[j] == k
}

/// The folded key and store key of entry `i` of a folded map that stands for `witness`
/// restore a key and a value.
proof fn lemma_entry_witness<S: Store, K: Casserole<S>, V: Casserole<S>>(
    t: Map<K::Target, S::Key>,
    items: Seq<(&K::Target, &S::Key)>,
    i: int,
    contents: Contents<S>,
    witness: Map<K, V>,
) where V::Target: Encode
    requires
        map_restores::<S, K, V>(t, contents, witness),
        0 <= i < items.len(),
        t.contains_key(*items[i].0),
        t[*items[i].0] == *items[i].1,
    ensures
        exists|k: K| K::restores(*items[i].0, contents, k),
        exists|v: V| restores_stored::<S, V>((*items[i].1)@, contents, v),
{
    let f = *items[i].0;
    let k0 = choose|k: K|
        witness.contains_key(k) && #[trigger] entry_restores::<S, K, V>(
            f,
            t[f],
            contents,
            k,
            witness[k],
        );
    assert(K::restores(f, contents, k0));
    assert(restores_stored::<S, V>((*items[i].1)@, contents, witness[k0]));
}

/// One more entry restored: the key and value restored from entry `i` join those before.
proof fn lemma_restoring_step<S: Store, K: Casserole<S>, V: Casserole<S>>(
    t: Map<K::Target, S::Key>,
    items: Seq<(&K::Target, &S::Key)>,
    i: int,
    keys: Seq<K>,
    old_v: Map<K, V>,
    contents: Contents<S>,
    k: K,
    value: V,
    witness: Map<K, V>,
) where V::Target: Encode
    requires
        map_restores::<S, K, V>(t, contents, witness),
        items.no_duplicates(),
        0 <= i < items.len(),
        forall|j: int|
            #![trigger items[j]]
            0 <= j < items.len() ==> t.contains_key(*items[j].0) && t[*items[j].0] == *items[j].1,
        keys.len() == i,
        restored_so_far::<S, K, V>(items, keys, old_v, contents),
        K::restores(*items[i].0, contents, k),
        restores_stored::<S, V>((*items[i].1)@, contents, value),
    ensures
        restored_so_far::<S, K, V>(items, keys.push(k), old_v.insert(k, value), contents),
{
    let v = old_v.insert(k, value);
    let nk = keys.push(k);
    if old_v.contains_key(k) {
        let j = choose|j: int| 0 <= j < i && #[trigger] keys[j] == k;
        assert(entry_restores::<S, K, V>(*items[j].0, *items[j].1, contents, keys[j], old_v[keys[j]]));
        assert(K::restores(*items[j].0, contents, k));
        assert(t.contains_key(*items[j].0) && t.contains_key(*items[i].0));
        assert(*items[j].0 == *items[i].0);
        assert(items[j] == items[i]);
    }
    assert forall|j: int| 0 <= j < nk.len() implies v.contains_key(#[trigger] nk[j]) by {
        if j < i {
            assert(keys[j] == nk[j]);
        }
    }
    assert forall|j: int| 0 <= j < nk.len() implies #[trigger] entry_restores::<S, K, V>(
        *items[j].0,
        *items[j].1,
        contents,
        nk[j],
        v[nk[j]],
    ) by {
        if j < i {
            assert(keys[j] == nk[j]);
            assert(entry_restores::<S, K, V>(
                *items[j].0,
                *items[j].1,
                contents,
                keys[j],
                old_v[keys[j]],
            ));
            assert(old_v.contains_key(keys[j]));
            assert(nk[j] != k);
        } else {
            assert(nk[j] == k);
        }
    }
    assert forall|kk: K| #[trigger] v.contains_key(kk) implies exists|j: int|
        0 <= j < nk.len() && #[trigger] nk[j] == kk by {
        if kk == k {
            assert(nk[i] == kk);
        } else {
            assert(old_v.contains_key(kk));
            let j = choose|j: int| 0 <= j < i && #[trigger] keys[j] == kk;
            assert(nk[j] == kk);
        }
    }
}

/// The keys and values restored from all of a folded map's entries make a map that it
/// stands for.
proof fn lemma_restored<S: Store, K: Casserole<S>, V: Casserole<S>>(
    t: Map<K::Target, S::Key>,
    items: Seq<(&K::Target, &S::Key)>,
    keys: Seq<K>,
    m: Map<K, V>,
    contents: Contents<S>,
    witness: Map<K, V>,
) where V::Target: Encode
    requires
        map_restores::<S, K, V>(t, contents, witness),
        forall|j: int|
            #![trigger items[j]]
            0 <= j < items.len() ==> t.contains_key(*items[j].0) && t[*items[j].0] == *items[j].1,
        forall|f: K::Target| #[trigger] t.contains_key(f) ==> items.contains((&f, &t[f])),
        keys.len() == items.len(),
        restored_so_far::<S, K, V>(items, keys, m, contents),
    ensures
        map_restores::<S, K, V>(t, contents, m),
{
    assert forall|f: K::Target| #[trigger] t.contains_key(f) implies exists|k: K|
        m.contains_key(k) && #[trigger] entry_restores::<S, K, V>(f, t[f], contents, k, m[k]) by {
        assert(items.contains((&f, &t[f])));
        let j = choose|j: int| 0 <= j < items.len() && items[j] == (&f, &t[f]);
        assert(entry_restores::<S, K, V>(*items[j].0, *items[j].1, contents, keys[j], m[keys[j]]));
        assert(m.contains_key(keys[j]));
    }
    assert forall|k: K| #[trigger] m.contains_key(k) implies exists|f: K::Target|
        t.contains_key(f) && #[trigger] K::restores(f, contents, k) by {
        let j = choose|j: int| 0 <= j < items.len() && #[trigger] keys[j] == k;
        assert(entry_restores::<S, K, V>(*items[j].0, *items[j].1, contents, keys[j], m[keys[j]]));
        assert(t.contains_key(*items[j].0));
    }
}

/// Implementation of maps in casserole is done as a sorted map, where the
/// values are proxied by Store keys.
impl<S: Store, K, V> Casserole<S> for BTreeMap<K, V> where
    K: Casserole<S> + Ord,
    K::Target: Ord,
    V: Casserole<S>,
    V::Target: Encode,
 {
    type Target = StoredValuesBTreeMap<S, K>;

    open spec fn exact() -> bool {
        &&& obeys_cmp::<K>()
        &&& obeys_cmp::<K::Target>()
        &&& maps_foldable::<S, K, V>()
    }

    open spec fn restores(
        target: StoredValuesBTreeMap<S, K>,
        contents: Contents<S>,
        value: BTreeMap<K, V>,
    ) -> bool {
        map_restores::<S, K, V>(target.stored(), contents, value@)
    }

    open spec fn same(a: BTreeMap<K, V>, b: BTreeMap<K, V>) -> bool {
        map_same::<S, K, V>(a@, b@)
    }

    fn casserole(&self, store: &mut S) -> (res: Result<StoredValuesBTreeMap<S, K>, S::Error>)
        ensures
            self@.len() == 0 ==> (res matches Ok(t) && t.stored() == Map::<K::Target, S::Key>::empty()
                && *final(store) == *old(store)),
    {
        let ghost items = spec_btree_map_iter(self).remaining();
        let ghost start = store.contents();
        let ghost mut folded_keys: Seq<K::Target> = Seq::empty();
        let mut map: BTreeMap<K::Target, S::Key> = BTreeMap::new();
        for (key, value) in it: self.iter()
            invariant
                it.seq() == items,
                items.no_duplicates(),
                Self::exact(),
                store.valid(),
                start.submap_of(store.contents()),
                old(store).contents() == start,
                old(store).clashed() ==> store.clashed(),
                it.index() == 0 ==> *store == *old(store) && map@ == Map::<K::Target, S::Key>::empty(),
                folded_keys.len() == it.index(),
                gathered::<S, K, V>(items, folded_keys, map@, store.contents(), store.clashed()),
        {
            let ghost i = it.index();
            let ghost before = store.contents();
            let ghost old_map = map@;
            let folded = match key.casserole(store) {
                Ok(folded) => folded,
                Err(e) => return Err(e),
            };
            let ghost middle = store.contents();
            let stored = match casserole_stored(value, store) {
                Ok(stored) => stored,
                Err(e) => return Err(e),
            };
            map.insert(folded, stored);
            proof {
                lemma_gathering_step::<S, K, V>(
                    items,
                    i,
                    folded_keys,
                    old_map,
                    before,
                    middle,
                    store.contents(),
                    store.clashed(),
                    folded,
                    stored,
                    self@,
                );
                folded_keys = folded_keys.push(folded);
            }
        }
        let ghost end = store.contents();
        proof {
            if self@.len() == 0 && items.len() > 0 {
                assert(self@.contains_key(*items[0].0));
            }
            if !store.clashed() {
                lemma_gathered_restores::<S, K, V>(items, folded_keys, map@, end, self@);
            }
        }
        Ok(StoredValuesBTreeMap { map })
    }

    fn decasserole(target: &StoredValuesBTreeMap<S, K>, store: &mut S) -> (res: Result<
        BTreeMap<K, V>,
        S::Error,
    >) {
        let ghost contents = store.contents();
        let ghost witness = choose|v: BTreeMap<K, V>| Self::restores(*target, contents, v);
        let ghost t = target.stored();
        let ghost items = spec_btree_map_iter(&target.map).remaining();
        let ghost mut keys: Seq<K> = Seq::empty();
        let mut v: BTreeMap<K, V> = BTreeMap::new();
        for (folded, stored) in it: target.map.iter()
            invariant
                it.seq() == items,
                items.no_duplicates(),
                Self::exact(),
                store.valid(),
                store.contents() == contents,
                store.clashed() == old(store).clashed(),
                old(store).contents() == contents,
                t == target.map@,
                map_restores::<S, K, V>(t, contents, witness@),
                keys.len() == it.index(),
                restored_so_far::<S, K, V>(items, keys, v@, contents),
        {
            let ghost i = it.index();
            let ghost old_v = v@;
            proof {
                lemma_entry_witness::<S, K, V>(t, items, i, contents, witness@);
            }
            let k = match K::decasserole(folded, store) {
                Ok(k) => k,
                Err(e) => return Err(e),
            };
            let value = match decasserole_stored::<S, V>(stored, store) {
                Ok(value) => value,
                Err(e) => return Err(e),
            };
            v.insert(k, value);
            proof {
                lemma_restoring_step::<S, K, V>(t, items, i, keys, old_v, contents, k, value, witness@);
                keys = keys.push(k);
            }
        }
        proof {
            lemma_restored::<S, K, V>(t, items, keys, v@, contents, witness@);
        }
        Ok(v)
    }
}

/// Implementation of HashMap in casserole is done as a sorted map, where the
/// values are proxied by Store keys.
impl<S: Store, K, V> Casserole<S> for HashMap<K, V> where
    K: Casserole<S> + Eq + Hash,
    K::Target: Ord,
    V: Casserole<S>,
    V::Target: Encode,
 {
    type Target = StoredValuesBTreeMap<S, K>;

    open spec fn exact() -> bool {
        &&& obeys_key_model::<K>()
        &&& obeys_cmp::<K::Target>()
        &&& maps_foldable::<S, K, V>()
    }

    open spec fn restores(
        target: StoredValuesBTreeMap<S, K>,
        contents: Contents<S>,
        value: HashMap<K, V>,
    ) -> bool {
        map_restores::<S, K, V>(target.stored(), contents, value@)
    }

    open spec fn same(a: HashMap<K, V>, b: HashMap<K, V>) -> bool {
        map_same::<S, K, V>(a@, b@)
    }

    fn casserole(&self, store: &mut S) -> (res: Result<StoredValuesBTreeMap<S, K>, S::Error>)
        ensures
            self@.len() == 0 ==> (res matches Ok(t) && t.stored() == Map::<K::Target, S::Key>::empty()
                && *final(store) == *old(store)),
    {
        let ghost items = spec_hash_map_iter(self).remaining();
        let ghost start = store.contents();
        let ghost mut folded_keys: Seq<K::Target> = Seq::empty();
        let mut map: BTreeMap<K::Target, S::Key> = BTreeMap::new();
        for (key, value) in it: self.iter()
            invariant
                it.seq() == items,
                items.no_duplicates(),
                Self::exact(),
                store.valid(),
                start.submap_of(store.contents()),
                old(store).contents() == start,
                old(store).clashed() ==> store.clashed(),
                it.index() == 0 ==> *store == *old(store) && map@ == Map::<K::Target, S::Key>::empty(),
                folded_keys.len() == it.index(),
                gathered::<S, K, V>(items, folded_keys, map@, store.contents(), store.clashed()),
        {
            let ghost i = it.index();
            let ghost before = store.contents();
            let ghost old_map = map@;
            let folded = match key.casserole(store) {
                Ok(folded) => folded,
                Err(e) => return Err(e),
            };
            let ghost middle = store.contents();
            let stored = match casserole_stored(value, store) {
                Ok(stored) => stored,
                Err(e) => return Err(e),
            };
            map.insert(folded, stored);
            proof {
                lemma_gathering_step::<S, K, V>(
                    items,
                    i,
                    folded_keys,
                    old_map,
                    before,
                    middle,
                    store.contents(),
                    store.clashed(),
                    folded,
                    stored,
                    self@,
                );
                folded_keys = folded_keys.push(folded);
            }
        }
        let ghost end = store.contents();
        proof {
            if self@.len() == 0 && items.len() > 0 {
                assert(self@.contains_key(*items[0].0));
            }
            if !store.clashed() {
                lemma_gathered_restores::<S, K, V>(items, folded_keys, map@, end, self@);
            }
        }
        Ok(StoredValuesBTreeMap { map })
    }

    fn decasserole(target: &StoredValuesBTreeMap<S, K>, store: &mut S) -> (res: Result<
        HashMap<K, V>,
        S::Error,
    >) {
        let ghost contents = store.contents();
        let ghost witness = choose|v: HashMap<K, V>| Self::restores(*target, contents, v);
        let ghost t = target.stored();
        let ghost items = spec_btree_map_iter(&target.map).remaining();
        let ghost mut keys: Seq<K> = Seq::empty();
        let mut v: HashMap<K, V> = HashMap::new();
        for (folded, stored) in it: target.map.iter()
            invariant
                it.seq() == items,
                items.no_duplicates(),
                Self::exact(),
                store.valid(),
                store.contents() == contents,
                store.clashed() == old(store).clashed(),
                old(store).contents() == contents,
                t == target.map@,
                map_restores::<S, K, V>(t, contents, witness@),
                keys.len() == it.index(),
                restored_so_far::<S, K, V>(items, keys, v@, contents),
        {
            let ghost i = it.index();
            let ghost old_v = v@;
            proof {
                lemma_entry_witness::<S, K, V>(t, items, i, contents, witness@);
            }
            let k = match K::decasserole(folded, store) {
                Ok(k) => k,
                Err(e) => return Err(e),
            };
            let value = match decasserole_stored::<S, V>(stored, store) {
                Ok(value) => value,
                Err(e) => return Err(e),
            };
            v.insert(k, value);
            proof {
                lemma_restoring_step::<S, K, V>(t, items, i, keys, old_v, contents, k, value, witness@);
                keys = keys.push(k);
            }
        }
        proof {
            lemma_restored::<S, K, V>(t, items, keys, v@, contents, witness@);
        }
        Ok(v)
    }
}

/// A BTreeMap of lawful keys and values, with the conditions of `exact`, is lawful.
pub proof fn lemma_lawful_btree_map<S: Store, K, V>() where
    K: Casserole<S> + Ord,
    K::Target: Ord,
    V: Casserole<S>,
    V::Target: Encode,

    requires
        <BTreeMap<K, V> as Casserole<S>>::exact(),
    ensures
        lawful::<S, BTreeMap<K, V>>(),
{
    assert forall|target: StoredValuesBTreeMap<S, K>, contents: Contents<S>, a: BTreeMap<K, V>, b: BTreeMap<K, V>|
        #[trigger] <BTreeMap<K, V> as Casserole<S>>::restores(target, contents, a)
            && #[trigger] <BTreeMap<K, V> as Casserole<S>>::restores(
            target,
            contents,
            b,
        ) implies <BTreeMap<K, V> as Casserole<S>>::same(a, b) by {
        lemma_map_restores_unique::<S, K, V>(target.stored(), contents, a@, b@);
    }
    assert forall|
        target: StoredValuesBTreeMap<S, K>,
        small: Contents<S>,
        large: Contents<S>,
        value: BTreeMap<K, V>,
    |
        #[trigger] <BTreeMap<K, V> as Casserole<S>>::restores(target, small, value)
            && #[trigger] small.submap_of(large) implies <BTreeMap<K, V> as Casserole<
        S,
    >>::restores(target, large, value) by {
        lemma_map_restores_kept::<S, K, V>(target.stored(), small, large, value@);
    }
}

/// A HashMap of lawful keys and values, with the conditions of `exact`, is lawful.
pub proof fn lemma_lawful_hash_map<S: Store, K, V>() where
    K: Casserole<S> + Eq + Hash,
    K::Target: Ord,
    V: Casserole<S>,
    V::Target: Encode,

    requires
        <HashMap<K, V> as Casserole<S>>::exact(),
    ensures
        lawful::<S, HashMap<K, V>>(),
{
    assert forall|target: StoredValuesBTreeMap<S, K>, contents: Contents<S>, a: HashMap<K, V>, b: HashMap<K, V>|
        #[trigger] <HashMap<K, V> as Casserole<S>>::restores(target, contents, a)
            && #[trigger] <HashMap<K, V> as Casserole<S>>::restores(
            target,
            contents,
            b,
        ) implies <HashMap<K, V> as Casserole<S>>::same(a, b) by {
        lemma_map_restores_unique::<S, K, V>(target.stored(), contents, a@, b@);
    }
    assert forall|
        target: StoredValuesBTreeMap<S, K>,
        small: Contents<S>,
        large: Contents<S>,
        value: HashMap<K, V>,
    |
        #[trigger] <HashMap<K, V> as Casserole<S>>::restores(target, small, value)
            && #[trigger] small.submap_of(large) implies <HashMap<K, V> as Casserole<
        S,
    >>::restores(target, large, value) by {
        lemma_map_restores_kept::<S, K, V>(target.stored(), small, large, value@);
    }
}

/// Maps from `u64` to `u64` are lawful, so the round-trip law covers them.
pub proof fn lemma_lawful_u64_btree_map<S: Store>()
    ensures
        lawful::<S, BTreeMap<u64, u64>>(),
{
    broadcast use vstd::laws_cmp::group_laws_cmp;

    super::basic::lemma_lawful_u64::<S>();
    crate::encoding::lemma_faithful_u64();
    lemma_lawful_btree_map::<S, u64, u64>();
}

/// The keys of a map's entries, in the order in which it gives them out, are its keys
/// in increasing order.
proof fn lemma_in_order_of_entries<S: Store, K: Casserole<S>>(
    m: Map<K::Target, S::Key>,
    items: Seq<(&K::Target, &S::Key)>,
    ks: Seq<K::Target>,
) where K::Target: Ord
    requires
        obeys_cmp::<K::Target>(),
        vstd::std_specs::btree::increasing_seq(ks),
        ks == items.map_values(|kv: (&K::Target, &S::Key)| *kv.0),
        forall|i: int| 0 <= i < items.len() ==> m.contains_key(*items[i].0),
        forall|k: K::Target| #[trigger] m.contains_key(k) ==> items.contains((&k, &m[k])),
    ensures
        in_order(m.dom()) == ks,
{
    lemma_increasing_seq_strict(ks);
    assert(ks.to_set() =~= m.dom()) by {
        assert forall|k: K::Target| ks.to_set().contains(k) implies m.dom().contains(k) by {
            let i = choose|i: int| 0 <= i < ks.len() && ks[i] == k;
            assert(m.contains_key(*items[i].0));
        }
        assert forall|k: K::Target| m.dom().contains(k) implies ks.to_set().contains(k) by {
            assert(m.contains_key(k));
            let i = choose|i: int| 0 <= i < items.len() && items[i] == (&k, &m[k]);
            assert(ks[i] == k);
        }
    }
    lemma_in_order(ks, m.dom());
}

/// The next item of `it`: the first of those it has left.
fn advance<I: Iterator>(it: &mut I) -> (ret: Option<I::Item>)
    ensures
        (*final(it)).obeys_prophetic_iter_laws() == (*old(it)).obeys_prophetic_iter_laws(),
        (*old(it)).obeys_prophetic_iter_laws() ==> if (*old(it)).remaining().len() > 0 {
            &&& (*final(it)).remaining() == (*old(it)).remaining().drop_first()
            &&& ret == Some((*old(it)).remaining()[0])
        } else {
            ret is None
        },
{
    it.next()
}

/// Appends `b` to `v`.
fn push_all(v: &mut Vec<u8>, b: Vec<u8>)
    ensures
        final(v)@ == old(v)@ + b@,
{
    let mut b = b;
    v.append(&mut b);
}

/// A folded map is encoded as `serde_json` writes it: `{"map":{..}}`, its entries in the
/// map's order, each folded key as an object key (between quotes where its encoding is
/// not a string), and each store key as its encoding. `decode` reads the entries one
/// after another and gives back only what encodes to the bytes it was given (it encodes
/// what it read and compares). It reads back every encoding where folded keys and store
/// keys read back every encoding of theirs, no object key is a prefix of another, no
/// store key encoding is a prefix of another, and folded keys' equality behaves.
impl<S: Store, K: Casserole<S>> Encode for StoredValuesBTreeMap<S, K> where
    K::Target: Ord + Encode,
 {
    open spec fn encodes() -> bool {
        &&& obeys_cmp::<K::Target>()
        &&& K::Target::encodes()
        &&& S::Key::encodes()
    }

    open spec fn decodes_all() -> bool {
        &&& Self::encodes()
        &&& obeys_concrete_eq::<K::Target>()
        &&& K::Target::decodes_all()
        &&& key_texts_apart::<K::Target>()
        &&& S::Key::decodes_all()
        &&& encodings_apart::<S::Key>()
    }

    open spec fn encoding(&self) -> Seq<u8> {
        map_head() + entries_text::<K::Target, S::Key>(in_order(self.stored().dom()), self.stored()) + map_tail()
    }

    fn encode(&self) -> (bytes: Vec<u8>) {
        let mut bytes: Vec<u8> = vec![123u8, 34u8, 109u8, 97u8, 112u8, 34u8, 58u8, 123u8];
        assert(bytes@ =~= map_head());
        let ghost m = self.map@;
        let ghost items = spec_btree_map_iter(&self.map).remaining();
        let ghost ks = items.map_values(|kv: (&K::Target, &S::Key)| *kv.0);
        let n = self.map.len();
        let mut entries = self.map.iter();
        proof {
            if Self::encodes() {
                lemma_in_order_of_entries::<S, K>(m, items, ks);
            }
        }
        let mut count: usize = 0;
        while count < n
            invariant
                count <= n,
                Self::encodes() ==> n == items.len(),
                m == self.map@,
                items.len() == ks.len(),
                forall|j: int| 0 <= j < items.len() ==> #[trigger] ks[j] == *items[j].0,
                forall|j: int| 0 <= j < items.len() ==> m[*items[j].0] == *items[j].1,
                entries.obeys_prophetic_iter_laws(),
                Self::encodes() ==> in_order(m.dom()) == ks,
                Self::encodes() ==> entries.remaining() == items.skip(count as int),
                Self::encodes() ==> bytes@ == map_head() + entries_text::<K::Target, S::Key>(
                    ks.take(count as int),
                    m,
                ),
            decreases n - count,
        {
            let next = advance(&mut entries);
            match next {
                Some((folded, key)) => {
                    if count > 0 {
                        bytes.push(44u8);
                    }
                    let k = folded.encode();
                    if k.len() > 0 && k[0] == 34u8 {
                        push_all(&mut bytes, k);
                    } else {
                        bytes.push(34u8);
                        push_all(&mut bytes, k);
                        bytes.push(34u8);
                    }
                    bytes.push(58u8);
                    push_all(&mut bytes, key.encode());
                    proof {
                        if Self::encodes() {
                            let i = count as int;
                            assert(items.skip(i)[0] == items[i]);
                            assert(items.skip(i).drop_first() =~= items.skip(i + 1));
                            let t = ks.take(i + 1);
                            assert(t.drop_last() =~= ks.take(i));
                            assert(t.last() == ks[i]);
                            assert(*folded == ks[i]);
                            assert(*key == m[ks[i]]);
                            if i == 0 {
                                assert(ks.take(0) =~= Seq::<K::Target>::empty());
                            }
                            assert(bytes@ =~= map_head() + entries_text::<K::Target, S::Key>(t, m));
                        }
                    }
                },
                None => {
                    proof {
                        if Self::encodes() {
                            assert(items.skip(count as int).len() > 0);
                        }
                    }
                },
            }
            count = count + 1;
        }
        bytes.push(125u8);
        bytes.push(125u8);
        proof {
            if Self::encodes() {
                assert(ks.take(count as int) =~= ks);
                assert(bytes@ =~= self.encoding());
            }
        }
        bytes
    }

    fn decode(bytes: &[u8]) -> (res: Option<StoredValuesBTreeMap<S, K>>) {
        let n = bytes.len();
        if n < 10 || bytes[n - 1] != 125u8 || bytes[n - 2] != 125u8 {
            proof {
                lemma_map_text_shape::<S, K>(bytes@);
            }
            return None;
        }
        let head = vec![123u8, 34u8, 109u8, 97u8, 112u8, 34u8, 58u8, 123u8];
        if !bytes_equal(vstd::slice::slice_subrange(bytes, 0, 8), head.as_slice()) {
            proof {
                lemma_map_text_shape::<S, K>(bytes@);
                assert(head@ =~= map_head());
            }
            return None;
        }
        let mid = vstd::slice::slice_subrange(bytes, 8, n - 2);
        let m = mid.len();
        let ghost readable = Self::decodes_all() && exists|t: Self| t.encoding() == bytes@;
        let ghost t0 = choose|t: Self| t.encoding() == bytes@;
        let ghost sm = t0.stored();
        let ghost ks = in_order(sm.dom());
        proof {
            if readable {
                lemma_map_text_shape::<S, K>(bytes@);
                lemma_listing::<S, K>(t0);
                assert(mid@ =~= entries_text::<K::Target, S::Key>(ks, sm));
                lemma_entries_nonempty::<K::Target, S::Key>(ks, sm);
                assert(ks.skip(0) =~= ks);
                assert(mid@.skip(0) =~= mid@);
            }
        }
        let mut map: BTreeMap<K::Target, S::Key> = BTreeMap::new();
        let mut pos: usize = 0;
        let ghost mut j: int = 0;
        while pos < m
            invariant
                m == mid@.len(),
                pos <= m,
                readable == (Self::decodes_all() && exists|t: Self| t.encoding() == bytes@),
                sm == t0.stored(),
                ks == in_order(sm.dom()),
                readable ==> t0.encoding() == bytes@,
                readable ==> Self::decodes_all(),
                readable ==> strictly_increasing(ks) && ks.to_set() == sm.dom(),
                readable ==> 0 <= j <= ks.len(),
                readable ==> (pos < m ==> j < ks.len() && mid@.skip(pos as int) == entries_text::<
                    K::Target,
                    S::Key,
                >(ks.skip(j), sm)),
                readable ==> (pos == m ==> j == ks.len()),
                readable ==> forall|i: int|
                    0 <= i < j ==> map@.contains_key(#[trigger] ks[i]) && map@[ks[i]].encoding()
                        == sm[ks[i]].encoding(),
                readable ==> forall|f: K::Target| #[trigger]
                    map@.contains_key(f) ==> exists|i: int| 0 <= i < j && #[trigger] ks[i] == f,
            decreases m - pos,
        {
            proof {
                if readable {
                    lemma_entry_at::<K::Target, S::Key>(mid@, pos as int, ks, sm, j);
                }
            }
            let rk = read_key_at::<K::Target>(mid, pos);
            proof {
                if readable {
                    let g = ks[j];
                    assert(rk == Some(((pos + key_text(g.encoding()).len()) as usize, g)));
                }
            }
            let (p, folded) = match rk {
                Some(r) => r,
                None => {
                    return None;
                },
            };
            let (q, key) = match read_value_at::<S::Key>(mid, p + 1) {
                Some(r) => r,
                None => {
                    return None;
                },
            };
            let ghost old_map = map@;
            map.insert(folded, key);
            if q >= m {
                pos = m;
            } else {
                if mid[q] != 44u8 || q + 1 >= m {
                    return None;
                }
                pos = q + 1;
            }
            proof {
                if readable {
                    assert(folded == ks[j]);
                    assert(map@ == old_map.insert(folded, key));
                    assert forall|f: K::Target| #[trigger] map@.contains_key(f) implies exists|i: int|
                        0 <= i < j + 1 && #[trigger] ks[i] == f by {
                        if f != folded {
                            assert(old_map.contains_key(f));
                        } else {
                            assert(ks[j] == f);
                        }
                    }
                    j = j + 1;
                }
            }
        }
        let candidate = StoredValuesBTreeMap { map };
        proof {
            if readable {
                let cm: Map<K::Target, S::Key> = candidate.stored();
                assert(cm.dom() =~= sm.dom()) by {
                    assert forall|f: K::Target| cm.dom().contains(f) implies sm.dom().contains(f) by {
                        let i = choose|i: int| 0 <= i < j && #[trigger] ks[i] == f;
                        assert(ks.to_set().contains(ks[i]));
                    }
                    assert forall|f: K::Target| sm.dom().contains(f) implies cm.dom().contains(f) by {
                        assert(ks.to_set().contains(f));
                        let i = choose|i: int| 0 <= i < ks.len() && ks[i] == f;
                        assert(cm.contains_key(ks[i]));
                    }
                }
                assert forall|i: int| 0 <= i < ks.len() implies #[trigger] cm[ks[i]].encoding()
                    == sm[ks[i]].encoding() by {
                    assert(map@.contains_key(ks[i]));
                }
                lemma_entries_congruent::<K::Target, S::Key>(ks, cm, sm);
                assert(candidate.encoding() == t0.encoding());
            }
        }
        let again = candidate.encode();
        if bytes_equal(again.as_slice(), bytes) {
            Some(candidate)
        } else {
            None
        }
    }
}

/// Folded maps with equal encodings hold the same folded keys, with store keys of equal
/// views under each.
pub proof fn lemma_map_encoding_apart<S: Store, K: Casserole<S>>(
    t1: StoredValuesBTreeMap<S, K>,
    t2: StoredValuesBTreeMap<S, K>,
) where K::Target: Ord + Encode
    requires
        <StoredValuesBTreeMap<S, K> as Encode>::decodes_all(),
        t1.encoding() == t2.encoding(),
    ensures
        t1.stored().dom() == t2.stored().dom(),
        forall|f: K::Target| #[trigger]
            t1.stored().contains_key(f) ==> t1.stored()[f]@ == t2.stored()[f]@,
{
    let s1 = t1.stored();
    let s2 = t2.stored();
    lemma_map_text_shape::<S, K>(t1.encoding());
    lemma_listing::<S, K>(t1);
    lemma_listing::<S, K>(t2);
    let ks1 = in_order(s1.dom());
    let ks2 = in_order(s2.dom());
    lemma_entries_apart::<K::Target, S::Key>(ks1, s1, ks2, s2);
    assert forall|f: K::Target| #[trigger] s1.contains_key(f) implies s1[f]@ == s2[f]@ by {
        assert(ks1.to_set().contains(f));
        let i = choose|i: int| 0 <= i < ks1.len() && ks1[i] == f;
        assert(s1[ks1[i]].encoding() == s2[ks1[i]].encoding());
        assert(s1[ks1[i]]@ == s2[ks1[i]]@);
    }
}

/// Store keys by folded key that hold the same folded keys, with store keys of equal
/// views, stand for the same maps.
proof fn lemma_map_restores_congruent<S: Store, K: Casserole<S>, V: Casserole<S>>(
    s1: Map<K::Target, S::Key>,
    s2: Map<K::Target, S::Key>,
    contents: Contents<S>,
    m: Map<K, V>,
) where V::Target: Encode
    requires
        s1.dom() == s2.dom(),
        forall|f: K::Target| #[trigger] s1.contains_key(f) ==> s1[f]@ == s2[f]@,
        map_restores::<S, K, V>(s1, contents, m),
    ensures
        map_restores::<S, K, V>(s2, contents, m),
{
    assert forall|folded: K::Target| #[trigger] s2.contains_key(folded) implies exists|k: K|
        m.contains_key(k) && #[trigger] entry_restores::<S, K, V>(
            folded,
            s2[folded],
            contents,
            k,
            m[k],
        ) by {
        assert(s1.contains_key(folded));
        let k = choose|k: K|
            m.contains_key(k) && #[trigger] entry_restores::<S, K, V>(
                folded,
                s1[folded],
                contents,
                k,
                m[k],
            );
        assert(s1[folded]@ == s2[folded]@);
        assert(entry_restores::<S, K, V>(folded, s2[folded], contents, k, m[k]));
    }
    assert forall|k: K| #[trigger] m.contains_key(k) implies exists|folded: K::Target|
        s2.contains_key(folded) && #[trigger] K::restores(folded, contents, k) by {
        let folded = choose|folded: K::Target|
            s1.contains_key(folded) && #[trigger] K::restores(folded, contents, k);
        assert(s2.contains_key(folded));
    }
    assert forall|f1: K::Target, f2: K::Target, k: K|
        s2.contains_key(f1) && s2.contains_key(f2) && #[trigger] K::restores(f1, contents, k)
            && #[trigger] K::restores(f2, contents, k) implies f1 == f2 by {
        assert(s1.contains_key(f1) && s1.contains_key(f2));
    }
}

/// A BTreeMap whose folded form reads back can be kept in a store: it can be the value
/// of a map, or a field that is kept in the store.
pub proof fn lemma_btree_map_stored_apart<S: Store, K, V>() where
    K: Casserole<S> + Ord,
    K::Target: Ord + Encode,
    V: Casserole<S>,
    V::Target: Encode,

    requires
        <StoredValuesBTreeMap<S, K> as Encode>::decodes_all(),
    ensures
        stored_apart::<S, BTreeMap<K, V>>(),
{
    assert forall|
        t1: StoredValuesBTreeMap<S, K>,
        t2: StoredValuesBTreeMap<S, K>,
        contents: Contents<S>,
        value: BTreeMap<K, V>,
    |
        #![trigger t1.encoding(), t2.encoding(), <BTreeMap<K, V> as Casserole<S>>::restores(t1, contents, value)]
        t1.encoding() == t2.encoding() && <BTreeMap<K, V> as Casserole<S>>::restores(
            t1,
            contents,
            value,
        ) implies <BTreeMap<K, V> as Casserole<S>>::restores(t2, contents, value) by {
        lemma_map_encoding_apart::<S, K>(t1, t2);
        lemma_map_restores_congruent::<S, K, V>(t1.stored(), t2.stored(), contents, value@);
    }
}

/// A HashMap whose folded form reads back can be kept in a store: it can be the value
/// of a map, or a field that is kept in the store.
pub proof fn lemma_hash_map_stored_apart<S: Store, K, V>() where
    K: Casserole<S> + Eq + Hash,
    K::Target: Ord + Encode,
    V: Casserole<S>,
    V::Target: Encode,

    requires
        <StoredValuesBTreeMap<S, K> as Encode>::decodes_all(),
    ensures
        stored_apart::<S, HashMap<K, V>>(),
{
    assert forall|
        t1: StoredValuesBTreeMap<S, K>,
        t2: StoredValuesBTreeMap<S, K>,
        contents: Contents<S>,
        value: HashMap<K, V>,
    |
        #![trigger t1.encoding(), t2.encoding(), <HashMap<K, V> as Casserole<S>>::restores(t1, contents, value)]
        t1.encoding() == t2.encoding() && <HashMap<K, V> as Casserole<S>>::restores(
            t1,
            contents,
            value,
        ) implies <HashMap<K, V> as Casserole<S>>::restores(t2, contents, value) by {
        lemma_map_encoding_apart::<S, K>(t1, t2);
        lemma_map_restores_congruent::<S, K, V>(t1.stored(), t2.stored(), contents, value@);
    }
}

/// Maps from `u64` to maps from `u64` to `u64` are lawful in a store whose keys read back
/// every encoding and are encoded apart (as `JSONMemorySHA1`'s string keys are), so the
/// round-trip law covers a map whose values are maps.
pub proof fn lemma_lawful_nested_u64_btree_map<S: Store>()
    requires
        S::Key::encodes(),
        S::Key::decodes_all(),
        encodings_apart::<S::Key>(),
    ensures
        lawful::<S, BTreeMap<u64, BTreeMap<u64, u64>>>(),
{
    broadcast use {vstd::laws_cmp::group_laws_cmp, vstd::laws_eq::group_laws_eq};

    super::basic::lemma_lawful_u64::<S>();
    crate::encoding::lemma_faithful_u64();
    lemma_lawful_u64_btree_map::<S>();
    lemma_key_texts_apart_u64();
    lemma_btree_map_stored_apart::<S, u64, u64>();
    lemma_lawful_btree_map::<S, u64, BTreeMap<u64, u64>>();
}

/// The keys of a `JSONMemorySHA1` read back every encoding and are encoded apart.
pub proof fn lemma_json_store_keys_apart()
    ensures
        <crate::store::json::JSONMemorySHA1 as Store>::Key::encodes(),
        <crate::store::json::JSONMemorySHA1 as Store>::Key::decodes_all(),
        encodings_apart::<<crate::store::json::JSONMemorySHA1 as Store>::Key>(),
{
    lemma_encodings_apart_string();
}

/// A folded key of a folded map that stands for `m` stands for an entry of `m`.
proof fn lemma_entry_of<S: Store, K: Casserole<S>, V: Casserole<S>>(
    t: Map<K::Target, S::Key>,
    contents: Contents<S>,
    m: Map<K, V>,
    f: K::Target,
) where V::Target: Encode
    requires
        map_restores::<S, K, V>(t, contents, m),
        t.contains_key(f),
    ensures
        exists|k: K| m.contains_key(k) && #[trigger] entry_restores::<S, K, V>(f, t[f], contents, k, m[k]),
{
}

/// A key of a map that a folded map stands for has a folded key there.
proof fn lemma_key_of<S: Store, K: Casserole<S>, V: Casserole<S>>(
    t: Map<K::Target, S::Key>,
    contents: Contents<S>,
    m: Map<K, V>,
    k: K,
) where V::Target: Encode
    requires
        map_restores::<S, K, V>(t, contents, m),
        m.contains_key(k),
    ensures
        exists|folded: K::Target| t.contains_key(folded) && #[trigger] K::restores(folded, contents, k),
{
}

/// Folding a map from `u64` to `u64` into a content-addressed store gives a folded map
/// that its contents alone decide, whatever order its entries came in: the folded map
/// holds the map's keys, each under the content key of its value's encoding.
pub proof fn law_u64_map_fold_determined(
    t: Map<u64, String>,
    contents: Contents<crate::store::json::JSONMemorySHA1>,
    m: Map<u64, u64>,
)
    requires
        map_restores::<crate::store::json::JSONMemorySHA1, u64, u64>(t, contents, m),
        forall|k: Seq<char>| #[trigger] contents.contains_key(k) ==> k == content_key(contents[k]),
    ensures
        t.dom() == m.dom(),
        forall|f: u64| #[trigger] t.contains_key(f) ==> t[f]@ == content_key(m[f].encoding()),
{
    assert forall|f: u64| #[trigger] t.contains_key(f) implies m.contains_key(f) && t[f]@
        == content_key(m[f].encoding()) by {
        lemma_entry_of::<crate::store::json::JSONMemorySHA1, u64, u64>(t, contents, m, f);
        let k = choose|k: u64|
            m.contains_key(k) && #[trigger] entry_restores::<
                crate::store::json::JSONMemorySHA1,
                u64,
                u64,
            >(f, t[f], contents, k, m[k]);
        assert(m.contains_key(k) && entry_restores::<crate::store::json::JSONMemorySHA1, u64, u64>(
            f,
            t[f],
            contents,
            k,
            m[k],
        ));
        assert(<u64 as Casserole<crate::store::json::JSONMemorySHA1>>::restores(f, contents, k));
        assert(k == f);
        assert(restores_stored::<crate::store::json::JSONMemorySHA1, u64>(t[f]@, contents, m[f]));
        let target = choose|target: u64|
            #[trigger] target.encoding() == contents[t[f]@] && <u64 as Casserole<
                crate::store::json::JSONMemorySHA1,
            >>::restores(target, contents, m[f]);
        assert(target == m[f]);
        assert(contents.contains_key(t[f]@));
    }
    assert forall|k: u64| #[trigger] m.contains_key(k) implies t.contains_key(k) by {
        lemma_key_of::<crate::store::json::JSONMemorySHA1, u64, u64>(t, contents, m, k);
        let folded = choose|folded: u64| t.contains_key(folded) && #[trigger] <u64 as Casserole<
            crate::store::json::JSONMemorySHA1,
        >>::restores(folded, contents, k);
    }
    assert(t.dom() =~= m.dom());
}

/// An encoding of a folded map opens with `{"map":{`, closes with `}}`, and holds the
/// entries' text between.
proof fn lemma_map_text_shape<S: Store, K: Casserole<S>>(bytes: Seq<u8>) where
    K::Target: Ord + Encode,

    ensures
        forall|t: StoredValuesBTreeMap<S, K>| #[trigger] t.encoding() == bytes ==> {
            &&& bytes.len() >= 10
            &&& bytes[bytes.len() - 1] == 125u8
            &&& bytes[bytes.len() - 2] == 125u8
            &&& bytes.subrange(0, 8) == map_head()
            &&& bytes.subrange(8, bytes.len() - 2) == entries_text::<K::Target, S::Key>(
                in_order(t.stored().dom()),
                t.stored(),
            )
        },
{
    assert forall|t: StoredValuesBTreeMap<S, K>| #[trigger] t.encoding() == bytes implies {
        &&& bytes.len() >= 10
        &&& bytes[bytes.len() - 1] == 125u8
        &&& bytes[bytes.len() - 2] == 125u8
        &&& bytes.subrange(0, 8) == map_head()
        &&& bytes.subrange(8, bytes.len() - 2) == entries_text::<K::Target, S::Key>(
            in_order(t.stored().dom()),
            t.stored(),
        )
    } by {
        let e = entries_text::<K::Target, S::Key>(in_order(t.stored().dom()), t.stored());
        assert(bytes =~= map_head() + e + map_tail());
        assert(bytes.subrange(0, 8) =~= map_head());
        assert(bytes.subrange(8, bytes.len() - 2) =~= e);
    }
}

/// A folded map's keys are listed in increasing order by `in_order`.
proof fn lemma_listing<S: Store, K: Casserole<S>>(t: StoredValuesBTreeMap<S, K>) where
    K::Target: Ord,

    requires
        obeys_cmp::<K::Target>(),
        obeys_concrete_eq::<K::Target>(),
    ensures
        strictly_increasing(in_order(t.stored().dom())),
        in_order(t.stored().dom()).to_set() == t.stored().dom(),
{
    assert(t.map@.dom().finite());
    lemma_in_order_exists(t.map@.dom());
}

/// Where the rest of the entries' text, from entry `j` on, starts at `pos`: the object
/// key of entry `j`, its `:`, the encoding of its store key, and then either the end or
/// a `,` and the text of the entries after it.
proof fn lemma_entry_at<F: Encode, Q: Encode>(
    mid: Seq<u8>,
    pos: int,
    ks: Seq<F>,
    sm: Map<F, Q>,
    j: int,
)
    requires
        0 <= pos <= mid.len(),
        0 <= j < ks.len(),
        mid.skip(pos) == entries_text(ks.skip(j), sm),
    ensures
        ({
            let kt = key_text(ks[j].encoding());
            let ke = sm[ks[j]].encoding();
            let e = pos + kt.len() + 1 + ke.len();
            &&& pos + kt.len() < mid.len()
            &&& mid.subrange(pos, pos + kt.len()) == kt
            &&& mid[pos + kt.len()] == 58u8
            &&& e <= mid.len()
            &&& mid.subrange(pos + kt.len() + 1, e) == ke
            &&& (j + 1 == ks.len()) == (e == mid.len())
            &&& j + 1 < ks.len() ==> mid[e] == 44u8 && e + 1 < mid.len() && mid.skip(e + 1)
                == entries_text(ks.skip(j + 1), sm)
        }),
{
    let r = ks.skip(j);
    lemma_entries_front(r, sm);
    assert(r[0] == ks[j]);
    let kt = key_text(ks[j].encoding());
    let ke = sm[ks[j]].encoding();
    let rest = if r.len() == 1 {
        Seq::<u8>::empty()
    } else {
        seq![44u8] + entries_text(r.drop_first(), sm)
    };
    let t = mid.skip(pos);
    assert(t =~= kt + seq![58u8] + ke + rest);
    let e = pos + kt.len() + 1 + ke.len();
    assert(mid.subrange(pos, pos + kt.len()) =~= t.subrange(0, kt.len() as int));
    assert(t[kt.len() as int] == 58u8);
    assert(mid.subrange(pos + kt.len() + 1, e) =~= t.subrange(
        kt.len() + 1 as int,
        kt.len() + 1 + ke.len() as int,
    ));
    if j + 1 < ks.len() {
        assert(r.drop_first() =~= ks.skip(j + 1));
        lemma_entries_nonempty(ks.skip(j + 1), sm);
        assert(t[e - pos] == 44u8);
        assert(mid.skip(e + 1) =~= t.skip(e - pos + 1));
        assert(t.skip(e - pos + 1) =~= entries_text(ks.skip(j + 1), sm));
    } else {
        assert(t.len() == e - pos);
    }
}

} // verus!
