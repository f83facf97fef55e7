//! A simple in-memory store of serialized casserole values, keyed by the SHA-1 of
//! the stored bytes written in Ascii85. Similar in fashion to the Git database.
use crate::digest::{content_key, content_key_of};
use crate::store::Store;
use vstd::hash_map::StringHashMap;
use vstd::prelude::*;

verus! {

/// A simple store of serialized casserole values, based on a SHA-1 key of the
/// serialized values. Similar in fashion to the Git database.
///
/// The entries are kept in a hash map; `keys` lists the keys held, in the order in
/// which they were first stored.
pub struct JSONMemorySHA1 {
    map: StringHashMap<Vec<u8>>,
    keys: Vec<String>,
    clashed: Ghost<bool>,
}

/// The entries after filing `bytes` under their content key: unchanged where the key
/// is already held, else with the new entry.
pub open spec fn filed(entries: Map<Seq<char>, Seq<u8>>, bytes: Seq<u8>) -> Map<Seq<char>, Seq<u8>> {
    if entries.contains_key(content_key(bytes)) {
        entries
    } else {
        entries.insert(content_key(bytes), bytes)
    }
}

/// Filing `bytes` meets other bytes under their content key.
pub open spec fn clashes(entries: Map<Seq<char>, Seq<u8>>, bytes: Seq<u8>) -> bool {
    entries.contains_key(content_key(bytes)) && entries[content_key(bytes)] != bytes
}

/// What a lookup of `key` finds among `entries`.
pub open spec fn lookup(entries: Map<Seq<char>, Seq<u8>>, key: Seq<char>) -> Option<Seq<u8>> {
    if entries.contains_key(key) {
        Some(entries[key])
    } else {
        None
    }
}

impl JSONMemorySHA1 {
    /// The store's internal invariant: `keys` lists each key of the map once, and every
    /// entry is filed under the content key of its bytes.
    pub closed spec fn well_formed(&self) -> bool {
        &&& forall|i: int|
            0 <= i < self.keys@.len() ==> self.map@.contains_key(#[trigger] self.keys@[i]@)
        &&& forall|k: Seq<char>|
            self.map@.contains_key(k) ==> exists|i: int|
                0 <= i < self.keys@.len() && #[trigger] self.keys@[i]@ == k
        &&& forall|i: int, j: int|
            0 <= i < j < self.keys@.len() ==> #[trigger] self.keys@[i]@ != #[trigger] self.keys@[j]@
        &&& forall|k: Seq<char>|
            #[trigger] self.map@.contains_key(k) ==> k == content_key(self.map@[k]@)
    }

    /// The byte strings held, by key.
    pub closed spec fn entries(&self) -> Map<Seq<char>, Seq<u8>> {
        self.map@.map_values(|v: Vec<u8>| v@)
    }

    /// The keys held, in the order in which they were first stored.
    pub closed spec fn key_order(&self) -> Seq<Seq<char>> {
        self.keys@.map_values(|k: String| k@)
    }

    /// Whether a `put` has met a key under which other bytes were kept (a digest clash).
    pub closed spec fn has_clashed(&self) -> bool {
        self.clashed@
    }

    /// Every entry is filed under the content key of its bytes.
    pub proof fn lemma_content_addressed(&self)
        requires
            self.well_formed(),
        ensures
            forall|k: Seq<char>| #[trigger]
                self.entries().contains_key(k) ==> k == content_key(self.entries()[k]),
    {
    }

    /// Create a new JSONMemorySHA1 map.
    pub fn new() -> (store: Self)
        ensures
            store.well_formed(),
            store.entries() == Map::<Seq<char>, Seq<u8>>::empty(),
            store.key_order() == Seq::<Seq<char>>::empty(),
            !store.has_clashed(),
    {
        let store = JSONMemorySHA1 { map: StringHashMap::new(), keys: Vec::new(), clashed: Ghost(false) };
        assert(store.entries() =~= Map::<Seq<char>, Seq<u8>>::empty());
        assert(store.key_order() =~= Seq::<Seq<char>>::empty());
        store
    }

    /// The entries of this store, one pair of key and bytes per entry, in the order in
    /// which the keys were first stored.
    pub fn items(&self) -> (items: Vec<(String, Vec<u8>)>)
        requires
            self.well_formed(),
        ensures
            items@.len() == self.key_order().len(),
            forall|i: int| 0 <= i < items@.len() ==> #[trigger] items@[i].0@ == self.key_order()[i],
            forall|i: int|
                0 <= i < items@.len() ==> {
                    &&& self.entries().contains_key(#[trigger] items@[i].0@)
                    &&& self.entries()[items@[i].0@] == items@[i].1@
                },
            forall|k: Seq<char>|
                #[trigger] self.entries().contains_key(k) ==> exists|i: int|
                    0 <= i < items@.len() && #[trigger] items@[i].0@ == k,
            forall|i: int, j: int|
                0 <= i < j < items@.len() ==> #[trigger] items@[i].0@ != #[trigger] items@[j].0@,
    {
        let mut items: Vec<(String, Vec<u8>)> = Vec::new();
        let n = self.keys.len();
        for i in 0..n
            invariant
                n == self.keys@.len(),
                self.well_formed(),
                items@.len() == i,
                forall|j: int| 0 <= j < i ==> #[trigger] items@[j].0@ == self.keys@[j]@,
                forall|j: int|
                    0 <= j < i ==> self.map@.contains_key(#[trigger] items@[j].0@)
                        && self.map@[items@[j].0@]@ == items@[j].1@,
        {
            let key = self.keys[i].clone();
            assert(self.map@.contains_key(self.keys@[i as int]@));
            match self.map.get(key.as_str()) {
                Some(bytes) => {
                    let copy = vstd::slice::slice_to_vec(bytes.as_slice());
                    items.push((key, copy));
                },
                None => {
                    assert(false);
                },
            }
        }
        proof {
            assert forall|k: Seq<char>| #[trigger] self.entries().contains_key(k) implies exists|
                i: int,
            | 0 <= i < items@.len() && #[trigger] items@[i].0@ == k by {
                let i = choose|i: int| 0 <= i < self.keys@.len() && #[trigger] self.keys@[i]@ == k;
                assert(items@[i].0@ == k);
            }
            assert forall|i: int, j: int| 0 <= i < j < items@.len() implies #[trigger] items@[i].0@
                != #[trigger] items@[j].0@ by {
                assert(items@[i].0@ == self.keys@[i]@);
                assert(items@[j].0@ == self.keys@[j]@);
            }
        }
        items
    }
}

impl Store for JSONMemorySHA1 {
    type Error = core::convert::Infallible;

    type Key = String;

    open spec fn valid(&self) -> bool {
        self.well_formed()
    }

    open spec fn contents(&self) -> Map<Seq<char>, Seq<u8>> {
        self.entries()
    }

    open spec fn never_fails() -> bool {
        true
    }

    open spec fn clashed(&self) -> bool {
        self.has_clashed()
    }

    /// Files `value` under its content key, unless that key is already held: then the
    /// bytes already there stay. Returns the key.
    fn put(&mut self, value: &[u8]) -> (res: Result<String, core::convert::Infallible>)
        ensures
            res matches Ok(key) && key@ == content_key(value@),
            final(self).entries() == filed(old(self).entries(), value@),
            final(self).has_clashed() == (old(self).has_clashed() || clashes(
                old(self).entries(),
                value@,
            )),
            final(self).key_order() == if old(self).entries().contains_key(content_key(value@)) {
                old(self).key_order()
            } else {
                old(self).key_order().push(content_key(value@))
            },
    {
        let key = content_key_of(value);
        if !self.map.contains_key(key.as_str()) {
            let bytes = vstd::slice::slice_to_vec(value);
            self.map.insert(key.clone(), bytes);
            self.keys.push(key.clone());
            proof {
                let n = self.keys@.len() - 1;
                assert(self.keys@[n]@ == key@);
                assert forall|k: Seq<char>| self.map@.contains_key(k) implies exists|i: int|
                    0 <= i < self.keys@.len() && #[trigger] self.keys@[i]@ == k by {
                    if k != key@ {
                        let i = choose|i: int|
                            0 <= i < old(self).keys@.len() && #[trigger] old(self).keys@[i]@ == k;
                        assert(self.keys@[i]@ == k);
                    }
                }
                assert forall|i: int|
                    0 <= i < self.keys@.len() implies self.map@.contains_key(
                    #[trigger] self.keys@[i]@,
                ) by {
                    if i < n {
                        assert(old(self).map@.contains_key(old(self).keys@[i]@));
                    }
                }
                assert forall|i: int, j: int|
                    0 <= i < j < self.keys@.len() implies #[trigger] self.keys@[i]@
                    != #[trigger] self.keys@[j]@ by {
                    if j == n {
                        assert(old(self).map@.contains_key(old(self).keys@[i]@));
                    } else {
                        assert(old(self).keys@[i]@ != old(self).keys@[j]@);
                    }
                }
                assert(self.entries() =~= old(self).entries().insert(key@, value@));
                assert(self.key_order() =~= old(self).key_order().push(key@));
            }
        } else {
            proof {
                if self.map@[key@]@ != value@ {
                    self.clashed = Ghost(true);
                }
                assert(self.entries() =~= old(self).entries());
            }
        }
        Ok(key)
    }

    /// The bytes filed under `key`, if any.
    fn get(&mut self, key: &String) -> (res: Result<Option<Vec<u8>>, core::convert::Infallible>)
        ensures
            res matches Ok(found) && match found {
                Some(bytes) => lookup(old(self).entries(), key@) == Some(bytes@),
                None => lookup(old(self).entries(), key@) is None,
            },
            final(self).entries() == old(self).entries(),
            final(self).key_order() == old(self).key_order(),
    {
        match self.map.get(key.as_str()) {
            Some(bytes) => Ok(Some(vstd::slice::slice_to_vec(bytes.as_slice()))),
            None => Ok(None),
        }
    }
}

/// Putting the same bytes twice leaves the store as putting them once, and the second
/// put meets a clash only where the first did: equal values are stored once.
pub proof fn law_put_idempotent(entries: Map<Seq<char>, Seq<u8>>, bytes: Seq<u8>)
    ensures
        filed(filed(entries, bytes), bytes) == filed(entries, bytes),
        clashes(filed(entries, bytes), bytes) == clashes(entries, bytes),
{
}

/// After a put that meets no clash, a lookup of the returned key gives back the bytes
/// that were put.
pub proof fn law_read_after_write(entries: Map<Seq<char>, Seq<u8>>, bytes: Seq<u8>)
    requires
        !clashes(entries, bytes),
    ensures
        lookup(filed(entries, bytes), content_key(bytes)) == Some(bytes),
{
}

/// A put keeps every entry that was there, and adds at most the entry of its key.
pub proof fn law_put_keeps_entries(entries: Map<Seq<char>, Seq<u8>>, bytes: Seq<u8>)
    ensures
        entries.submap_of(filed(entries, bytes)),
        forall|k: Seq<char>|
            #[trigger] filed(entries, bytes).contains_key(k) ==> entries.contains_key(k) || k
                == content_key(bytes),
{
}

/// Filing keeps the store content-addressed: every entry stays under the content key
/// of its bytes.
pub proof fn law_filing_content_addressed(entries: Map<Seq<char>, Seq<u8>>, bytes: Seq<u8>)
    requires
        forall|k: Seq<char>| #[trigger] entries.contains_key(k) ==> k == content_key(entries[k]),
    ensures
        forall|k: Seq<char>|
            #[trigger] filed(entries, bytes).contains_key(k) ==> k == content_key(
                filed(entries, bytes)[k],
            ),
{
}

/// The entries after filing each of `puts` in turn.
pub open spec fn filed_all(entries: Map<Seq<char>, Seq<u8>>, puts: Seq<Seq<u8>>) -> Map<
    Seq<char>,
    Seq<u8>,
>
    decreases puts.len(),
{
    if puts.len() == 0 {
        entries
    } else {
        filed(filed_all(entries, puts.drop_last()), puts.last())
    }
}

/// A value whose put met no clash is read back after any puts that follow: the entry of
/// its key stays as it was written (a `get` changes no entry).
pub proof fn law_read_after_writes(
    entries: Map<Seq<char>, Seq<u8>>,
    bytes: Seq<u8>,
    later: Seq<Seq<u8>>,
)
    requires
        !clashes(entries, bytes),
    ensures
        lookup(filed_all(filed(entries, bytes), later), content_key(bytes)) == Some(bytes),
    decreases later.len(),
{
    if later.len() > 0 {
        law_read_after_writes(entries, bytes, later.drop_last());
        law_put_keeps_entries(filed_all(filed(entries, bytes), later.drop_last()), later.last());
    }
}

/// Two puts of bytes that do not share a content key unless they are equal leave the
/// same entries in either order: what the store holds after a run of puts does not
/// depend on the order in which they came.
pub proof fn law_filing_commutes(entries: Map<Seq<char>, Seq<u8>>, a: Seq<u8>, b: Seq<u8>)
    requires
        a == b || content_key(a) != content_key(b),
    ensures
        filed(filed(entries, a), b) == filed(filed(entries, b), a),
{
    if a != b {
        assert(filed(filed(entries, a), b) =~= filed(filed(entries, b), a));
    }
}

} // verus!
