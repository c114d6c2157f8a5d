//! The keyspace: string keys mapped to frames, where a hash is a frame that
//! maps fields to frames.
use crate::frame::{entries_view, lookup_view, Error, ErrorView, Frame, FrameView};
use crate::table::{
    find_entry, insert_entry, lemma_lookup_absent, lemma_lookup_first,
    lemma_update_first, lookup_entry, remove_entry,
};
use vstd::prelude::*;

verus! {

/// The message of the error that `get` and `hset` give for a key of the wrong kind.
pub open spec fn wrong_type_message() -> Seq<char> {
    "WRONGTYPE Operation against a key holding the wrong kind of value"@
}

/// The message of the error that `hget` gives for a key that does not hold a hash.
pub open spec fn wrong_type_short_message() -> Seq<char> {
    "WRONGTYPE ..."@
}

/// What `get` returns on the map `m`.
pub open spec fn spec_get(m: Map<Seq<char>, FrameView>, key: Seq<char>) -> Result<
    Option<FrameView>,
    ErrorView,
> {
    if !m.contains_key(key) {
        Ok(None)
    } else if m[key] is Hash {
        Err(ErrorView::Protocol(wrong_type_message()))
    } else {
        Ok(Some(m[key]))
    }
}

/// What `hget` returns on the map `m`.
pub open spec fn spec_hget(m: Map<Seq<char>, FrameView>, key: Seq<char>, field: Seq<char>) -> Result<
    Option<FrameView>,
    ErrorView,
> {
    if !m.contains_key(key) {
        Ok(None)
    } else {
        match m[key] {
            FrameView::Hash(fields) => Ok(
                if fields.contains_key(field) {
                    Some(fields[field])
                } else {
                    None
                },
            ),
            _ => Err(ErrorView::Protocol(wrong_type_short_message())),
        }
    }
}

/// Whether `hset` succeeds on the map `m`: the key is new or holds a hash.
pub open spec fn hset_ok(m: Map<Seq<char>, FrameView>, key: Seq<char>) -> bool {
    !m.contains_key(key) || m[key] is Hash
}

/// The map after a successful `hset`.
pub open spec fn spec_hset(
    m: Map<Seq<char>, FrameView>,
    key: Seq<char>,
    field: Seq<char>,
    value: FrameView,
) -> Map<Seq<char>, FrameView> {
    let fields = if m.contains_key(key) {
        match m[key] {
            FrameView::Hash(f) => f,
            _ => Map::empty(),
        }
    } else {
        Map::empty()
    };
    m.insert(key, FrameView::Hash(fields.insert(field, value)))
}

/// The map after removing each of `keys` in turn.
pub open spec fn remove_keys(m: Map<Seq<char>, FrameView>, keys: Seq<Seq<char>>) -> Map<
    Seq<char>,
    FrameView,
>
    decreases keys.len(),
{
    if keys.len() == 0 {
        m
    } else {
        remove_keys(m, keys.drop_last()).remove(keys.last())
    }
}

/// How many of `keys`, removed in turn from `m`, were present when their turn came.
pub open spec fn removed_count(m: Map<Seq<char>, FrameView>, keys: Seq<Seq<char>>) -> int
    decreases keys.len(),
{
    if keys.len() == 0 {
        0
    } else {
        removed_count(m, keys.drop_last()) + if remove_keys(m, keys.drop_last()).contains_key(
            keys.last(),
        ) {
            1int
        } else {
            0int
        }
    }
}

/// The views of a list of strings.
pub open spec fn strings_view(s: Seq<String>) -> Seq<Seq<char>> {
    s.map_values(|x: String| x@)
}

/// The map after `hdel`: the listed fields leave the hash stored under `key`;
/// a key that holds no hash is left alone.
pub open spec fn spec_hdel(m: Map<Seq<char>, FrameView>, key: Seq<char>, fields: Seq<Seq<char>>) -> Map<
    Seq<char>,
    FrameView,
> {
    if m.contains_key(key) && m[key] is Hash {
        m.insert(key, FrameView::Hash(remove_keys(m[key]->Hash_0, fields)))
    } else {
        m
    }
}

/// What `hdel` returns.
pub open spec fn hdel_count(m: Map<Seq<char>, FrameView>, key: Seq<char>, fields: Seq<Seq<char>>) -> int {
    if m.contains_key(key) && m[key] is Hash {
        removed_count(m[key]->Hash_0, fields)
    } else {
        0
    }
}

/// The store of all keys.
///
/// The keys and their values are held as a list of (key, frame) pairs, which
/// stands for a map by the first-occurrence rule of `entries_view`: the first
/// pair with a key gives that key's value. The operations here replace a
/// key's first pair in place or append a new pair, so no key is held twice;
/// the fields of a hash value (`Frame::Hash`) are held and read the same way.
pub struct Store {
    data: Vec<(String, Frame)>,
}

impl View for Store {
    type V = Map<Seq<char>, FrameView>;

    closed spec fn view(&self) -> Map<Seq<char>, FrameView> {
        entries_view(self.data@)
    }
}

impl Default for Store {
    fn default() -> (s: Self)
        ensures
            s@ == Map::<Seq<char>, FrameView>::empty(),
    {
        Self::new()
    }
}

/// Removes each of `keys` from `entries` in turn, counting those that were present.
fn remove_all(entries: &mut Vec<(String, Frame)>, keys: &Vec<String>) -> (count: i64)
    requires
        keys@.len() <= i64::MAX,
    ensures
        entries_view(final(entries)@) == remove_keys(
            entries_view(old(entries)@),
            strings_view(keys@),
        ),
        count == removed_count(entries_view(old(entries)@), strings_view(keys@)),
{
    let ghost m0 = entries_view(entries@);
    let ghost ks = strings_view(keys@);
    let mut count: i64 = 0;
    let mut i: usize = 0;
    while i < keys.len()
        invariant
            i <= keys.len(),
            keys@.len() <= i64::MAX,
            ks == strings_view(keys@),
            entries_view(entries@) == remove_keys(m0, ks.take(i as int)),
            count == removed_count(m0, ks.take(i as int)),
            0 <= count <= i,
        decreases keys.len() - i,
    {
        let found = remove_entry(entries, &keys[i]);
        proof {
            let t = ks.take(i + 1);
            assert(t.drop_last() == ks.take(i as int));
            assert(t.last() == keys@[i as int]@);
        }
        if found {
            count = count + 1;
        }
        i = i + 1;
    }
    proof {
        assert(ks.take(keys@.len() as int) == ks);
    }
    count
}

impl Store {
    /// An empty store.
    pub fn new() -> (s: Self)
        ensures
            s@ == Map::<Seq<char>, FrameView>::empty(),
    {
        Store { data: Vec::new() }
    }

    /// Stores `value` under `key`, whatever the key held before.
    pub fn set(&mut self, key: String, value: Frame)
        ensures
            final(self)@ == old(self)@.insert(key@, value@),
    {
        insert_entry(&mut self.data, key, value);
    }

    /// The value of a key that does not hold a hash.
    pub fn get(&self, key: &str) -> (r: Result<Option<Frame>, Error>)
        ensures
            lookup_view(r) == spec_get(self@, key@),
    {
        let k = key.to_owned();
        match lookup_entry(&self.data, &k) {
            Some(Frame::Hash(_)) => Err(
                Error::Protocol(
                    "WRONGTYPE Operation against a key holding the wrong kind of value".to_owned(),
                ),
            ),
            Some(f) => Ok(Some(f.clone())),
            None => Ok(None),
        }
    }

    /// Sets a field of the hash stored under `key`, creating the hash if the
    /// key is new; fails, changing nothing, if the key holds something else.
    pub fn hset(&mut self, key: String, field: String, value: Frame) -> (r: Result<(), Error>)
        ensures
            r is Ok <==> hset_ok(old(self)@, key@),
            r is Ok ==> final(self)@ == spec_hset(old(self)@, key@, field@, value@),
            r matches Err(e) ==> e@ == ErrorView::Protocol(wrong_type_message()) && final(self)@
                == old(self)@,
    {
        match find_entry(&self.data, &key) {
            None => {
                let mut fields: Vec<(String, Frame)> = Vec::new();
                insert_entry(&mut fields, field, value);
                proof {
                    lemma_lookup_absent(self.data@, key@);
                    assert(entries_view(Seq::<(String, Frame)>::empty()) == Map::<
                        Seq<char>,
                        FrameView,
                    >::empty());
                }
                insert_entry(&mut self.data, key, Frame::Hash(fields));
                Ok(())
            },
            Some(i) => {
                proof {
                    lemma_lookup_first(self.data@, key@, i as int);
                }
                if let Frame::Hash(_) = &self.data[i].1 {
                    let ghost old_data = self.data@;
                    let (k, f) = self.data.remove(i);
                    if let Frame::Hash(mut fields) = f {
                        insert_entry(&mut fields, field, value);
                        self.data.insert(i, (k, Frame::Hash(fields)));
                        proof {
                            let e = (k, Frame::Hash(fields));
                            assert(self.data@ == old_data.update(i as int, e));
                            lemma_update_first(old_data, i as int, e);
                        }
                    }
                    Ok(())
                } else {
                    Err(
                        Error::Protocol(
                            "WRONGTYPE Operation against a key holding the wrong kind of value".to_owned(),
                        ),
                    )
                }
            },
        }
    }

    /// The value of a field of the hash stored under `key`.
    pub fn hget(&self, key: &str, field: &str) -> (r: Result<Option<Frame>, Error>)
        ensures
            lookup_view(r) == spec_hget(self@, key@, field@),
    {
        let k = key.to_owned();
        match lookup_entry(&self.data, &k) {
            Some(Frame::Hash(fields)) => {
                let fk = field.to_owned();
                match lookup_entry(fields, &fk) {
                    Some(v) => Ok(Some(v.clone())),
                    None => Ok(None),
                }
            },
            Some(_) => Err(Error::Protocol("WRONGTYPE ...".to_owned())),
            None => Ok(None),
        }
    }

    /// Removes each of `keys` in turn; counts those that were present.
    pub fn dump(&mut self, keys: Vec<String>) -> (count: i64)
        requires
            keys@.len() <= i64::MAX,
        ensures
            final(self)@ == remove_keys(old(self)@, strings_view(keys@)),
            count == removed_count(old(self)@, strings_view(keys@)),
    {
        remove_all(&mut self.data, &keys)
    }

    /// Removes each of `fields` in turn from the hash stored under `key`;
    /// counts those that were present. A key that holds no hash is left alone.
    pub fn hdel(&mut self, key: &str, fields: Vec<String>) -> (count: i64)
        requires
            fields@.len() <= i64::MAX,
        ensures
            final(self)@ == spec_hdel(old(self)@, key@, strings_view(fields@)),
            count == hdel_count(old(self)@, key@, strings_view(fields@)),
    {
        let k = key.to_owned();
        match find_entry(&self.data, &k) {
            None => {
                proof {
                    lemma_lookup_absent(self.data@, key@);
                }
                0
            },
            Some(i) => {
                proof {
                    lemma_lookup_first(self.data@, key@, i as int);
                }
                if let Frame::Hash(_) = &self.data[i].1 {
                    let ghost old_data = self.data@;
                    let (kk, f) = self.data.remove(i);
                    let mut count: i64 = 0;
                    if let Frame::Hash(mut entries) = f {
                        count = remove_all(&mut entries, &fields);
                        self.data.insert(i, (kk, Frame::Hash(entries)));
                        proof {
                            let e = (kk, Frame::Hash(entries));
                            assert(self.data@ == old_data.update(i as int, e));
                            lemma_update_first(old_data, i as int, e);
                        }
                    }
                    count
                } else {
                    0
                }
            },
        }
    }
}

} // verus!

verus! {

/// After `set`, `get` of the same key gives the value that was set (or the
/// wrong-kind error, when the value is a hash).
pub proof fn law_get_after_set(m: Map<Seq<char>, FrameView>, key: Seq<char>, value: FrameView)
    ensures
        spec_get(m.insert(key, value), key) == if value is Hash {
            Err::<Option<FrameView>, ErrorView>(ErrorView::Protocol(wrong_type_message()))
        } else {
            Ok(Some(value))
        },
{
}

/// `set` leaves every other key as it was.
pub proof fn law_set_keeps_other_keys(
    m: Map<Seq<char>, FrameView>,
    key: Seq<char>,
    value: FrameView,
    other: Seq<char>,
)
    requires
        key != other,
    ensures
        spec_get(m.insert(key, value), other) == spec_get(m, other),
        spec_hget(m.insert(key, value), other, key) == spec_hget(m, other, key),
{
}

/// After a successful `hset`, `hget` of the same field gives the value set.
pub proof fn law_hget_after_hset(
    m: Map<Seq<char>, FrameView>,
    key: Seq<char>,
    field: Seq<char>,
    value: FrameView,
)
    requires
        hset_ok(m, key),
    ensures
        spec_hget(spec_hset(m, key, field, value), key, field) == Ok::<Option<FrameView>, ErrorView>(
            Some(value),
        ),
{
}

/// A successful `hset` leaves the other fields of the hash as they were.
pub proof fn law_hset_keeps_other_fields(
    m: Map<Seq<char>, FrameView>,
    key: Seq<char>,
    field: Seq<char>,
    value: FrameView,
    other: Seq<char>,
)
    requires
        hset_ok(m, key),
        field != other,
    ensures
        spec_hget(spec_hset(m, key, field, value), key, other) == spec_hget(m, key, other),
{
}

/// A key removed by `dump` is gone afterwards, and `dump` never counts more
/// keys than it was given.
pub proof fn law_dump_removes(m: Map<Seq<char>, FrameView>, keys: Seq<Seq<char>>)
    ensures
        forall|i: int| 0 <= i < keys.len() ==> !#[trigger] remove_keys(m, keys).contains_key(keys[i]),
        0 <= removed_count(m, keys) <= keys.len(),
    decreases keys.len(),
{
    if keys.len() > 0 {
        let init = keys.drop_last();
        law_dump_removes(m, init);
        assert(remove_keys(m, keys) == remove_keys(m, init).remove(keys.last()));
        assert forall|i: int| 0 <= i < keys.len() implies !#[trigger] remove_keys(m, keys).contains_key(
            keys[i],
        ) by {
            if i < keys.len() - 1 {
                assert(keys[i] == init[i]);
            }
        }
    }
}

} // verus!

verus! {

/// A successful `hset` changes only the key it names: every other key keeps
/// its presence and its value.
pub proof fn law_hset_keeps_other_keys(
    m: Map<Seq<char>, FrameView>,
    key: Seq<char>,
    field: Seq<char>,
    value: FrameView,
    other: Seq<char>,
)
    requires
        hset_ok(m, key),
        other != key,
    ensures
        spec_hset(m, key, field, value).contains_key(other) == m.contains_key(other),
        m.contains_key(other) ==> spec_hset(m, key, field, value)[other] == m[other],
        spec_hset(m, key, field, value).remove(key) == m.remove(key),
        spec_hset(m, key, field, value).contains_key(key),
{
    assert(spec_hset(m, key, field, value).remove(key) =~= m.remove(key));
}

/// Removing keys in turn removes exactly the listed keys: a listed key is
/// gone, and every other key keeps its presence and its value.
pub proof fn law_remove_keys_removes_exactly_those(
    m: Map<Seq<char>, FrameView>,
    keys: Seq<Seq<char>>,
    k: Seq<char>,
)
    ensures
        keys.contains(k) ==> !remove_keys(m, keys).contains_key(k),
        !keys.contains(k) ==> remove_keys(m, keys).contains_key(k) == m.contains_key(k),
        !keys.contains(k) && m.contains_key(k) ==> remove_keys(m, keys)[k] == m[k],
    decreases keys.len(),
{
    if keys.len() > 0 {
        let init = keys.drop_last();
        law_remove_keys_removes_exactly_those(m, init, k);
        assert(remove_keys(m, keys) == remove_keys(m, init).remove(keys.last()));
        if keys.contains(k) && k != keys.last() {
            let i = choose|i: int| 0 <= i < keys.len() && keys[i] == k;
            assert(i < keys.len() - 1);
            assert(init[i] == k);
        }
        if !keys.contains(k) {
            assert(!init.contains(k)) by {
                if init.contains(k) {
                    let i = choose|i: int| 0 <= i < init.len() && init[i] == k;
                    assert(keys[i] == k);
                }
            }
            assert(keys[keys.len() - 1] != k);
        }
        if keys.contains(k) && k == keys.last() {
        }
    }
}

proof fn lemma_remove_keys_finite(m: Map<Seq<char>, FrameView>, keys: Seq<Seq<char>>)
    requires
        m.dom().finite(),
    ensures
        remove_keys(m, keys).dom().finite(),
        remove_keys(m, keys).dom().len() <= m.dom().len(),
    decreases keys.len(),
{
    if keys.len() > 0 {
        let init = keys.drop_last();
        lemma_remove_keys_finite(m, init);
        let r = remove_keys(m, init);
        assert(remove_keys(m, keys).dom() =~= r.dom().remove(keys.last()));
        vstd::set::axiom_set_remove_len(r.dom(), keys.last());
    }
}

/// The count that removing keys in turn gives is the number of keys that
/// left the map: its size before less its size after.
pub proof fn law_removed_count_is_keys_removed(m: Map<Seq<char>, FrameView>, keys: Seq<Seq<char>>)
    requires
        m.dom().finite(),
    ensures
        removed_count(m, keys) == m.dom().len() - remove_keys(m, keys).dom().len(),
    decreases keys.len(),
{
    if keys.len() > 0 {
        let init = keys.drop_last();
        law_removed_count_is_keys_removed(m, init);
        lemma_remove_keys_finite(m, init);
        let r = remove_keys(m, init);
        assert(remove_keys(m, keys).dom() =~= r.dom().remove(keys.last()));
        vstd::set::axiom_set_remove_len(r.dom(), keys.last());
    }
}

/// `hdel` counts exactly the fields that left the hash stored under `key`
/// (its size before less its size after), and counts nothing when the key
/// holds no hash.
pub proof fn law_hdel_counts_fields_removed(
    m: Map<Seq<char>, FrameView>,
    key: Seq<char>,
    fields: Seq<Seq<char>>,
)
    ensures
        m.contains_key(key) && m[key] is Hash && m[key]->Hash_0.dom().finite() ==> hdel_count(
            m,
            key,
            fields,
        ) == m[key]->Hash_0.dom().len() - spec_hdel(m, key, fields)[key]->Hash_0.dom().len(),
        !(m.contains_key(key) && m[key] is Hash) ==> hdel_count(m, key, fields) == 0 && spec_hdel(
            m,
            key,
            fields,
        ) == m,
{
    if m.contains_key(key) && m[key] is Hash && m[key]->Hash_0.dom().finite() {
        law_removed_count_is_keys_removed(m[key]->Hash_0, fields);
    }
}

} // verus!
