//! Lists of (key, frame) pairs used as maps: the store's keyspace and the
//! fields of a hash value. The first pair with a given key gives its value
//! (see `entries_view`).
use crate::frame::{entries_view, Frame};
use vstd::prelude::*;

verus! {

/// `i` is the position of the first pair in `s` whose key is `k`.
pub open spec fn first_index(s: Seq<(String, Frame)>, k: Seq<char>, i: int) -> bool {
    &&& 0 <= i < s.len()
    &&& s[i].0@ == k
    &&& forall|j: int| 0 <= j < i ==> (#[trigger] s[j]).0@ != k
}

/// No pair in `s` has the key `k`.
pub open spec fn key_absent(s: Seq<(String, Frame)>, k: Seq<char>) -> bool {
    forall|j: int| 0 <= j < s.len() ==> (#[trigger] s[j]).0@ != k
}

pub proof fn lemma_lookup_first(s: Seq<(String, Frame)>, k: Seq<char>, i: int)
    requires
        first_index(s, k, i),
    ensures
        entries_view(s).contains_key(k),
        entries_view(s)[k] == s[i].1@,
    decreases s.len(),
{
    if i > 0 {
        let t = s.subrange(1, s.len() as int);
        assert forall|j: int| 0 <= j < i - 1 implies (#[trigger] t[j]).0@ != k by {
            assert(t[j] == s[j + 1]);
        }
        assert(t[i - 1] == s[i]);
        lemma_lookup_first(t, k, i - 1);
        assert(s[0].0@ != k);
    }
}

pub proof fn lemma_lookup_absent(s: Seq<(String, Frame)>, k: Seq<char>)
    requires
        key_absent(s, k),
    ensures
        !entries_view(s).contains_key(k),
    decreases s.len(),
{
    if s.len() > 0 {
        let t = s.subrange(1, s.len() as int);
        assert forall|j: int| 0 <= j < t.len() implies (#[trigger] t[j]).0@ != k by {
            assert(t[j] == s[j + 1]);
        }
        lemma_lookup_absent(t, k);
        assert(s[0].0@ != k);
    }
}

pub proof fn lemma_update_first(s: Seq<(String, Frame)>, i: int, e: (String, Frame))
    requires
        first_index(s, e.0@, i),
    ensures
        entries_view(s.update(i, e)) == entries_view(s).insert(e.0@, e.1@),
    decreases s.len(),
{
    let k = e.0@;
    let u = s.update(i, e);
    let t = s.subrange(1, s.len() as int);
    let tu = u.subrange(1, u.len() as int);
    if i == 0 {
        assert(tu == t);
        assert(entries_view(u) == entries_view(t).insert(k, e.1@));
        assert(entries_view(s) == entries_view(t).insert(k, s[0].1@));
        assert(entries_view(u) =~= entries_view(s).insert(k, e.1@));
    } else {
        assert(tu == t.update(i - 1, e));
        assert forall|j: int| 0 <= j < i - 1 implies (#[trigger] t[j]).0@ != k by {
            assert(t[j] == s[j + 1]);
        }
        lemma_update_first(t, i - 1, e);
        assert(s[0].0@ != k);
        assert(u[0] == s[0]);
        assert(entries_view(u) =~= entries_view(s).insert(k, e.1@));
    }
}

pub proof fn lemma_push_absent(s: Seq<(String, Frame)>, e: (String, Frame))
    requires
        key_absent(s, e.0@),
    ensures
        entries_view(s.push(e)) == entries_view(s).insert(e.0@, e.1@),
    decreases s.len(),
{
    let k = e.0@;
    let p = s.push(e);
    if s.len() == 0 {
        assert(p.subrange(1, p.len() as int) == Seq::<(String, Frame)>::empty());
        assert(p[0] == e);
        assert(entries_view(p) == entries_view(p.subrange(1, p.len() as int)).insert(k, e.1@));
        assert(entries_view(p) =~= entries_view(s).insert(k, e.1@));
    } else {
        let t = s.subrange(1, s.len() as int);
        assert(p.subrange(1, p.len() as int) == t.push(e));
        assert forall|j: int| 0 <= j < t.len() implies (#[trigger] t[j]).0@ != k by {
            assert(t[j] == s[j + 1]);
        }
        lemma_push_absent(t, e);
        assert(s[0].0@ != k);
        assert(p[0] == s[0]);
        assert(entries_view(p) == entries_view(t.push(e)).insert(s[0].0@, s[0].1@));
        assert(entries_view(s) == entries_view(t).insert(s[0].0@, s[0].1@));
        assert(entries_view(t.push(e)) == entries_view(t).insert(k, e.1@));
        let a = entries_view(t);
        assert(a.insert(k, e.1@).insert(s[0].0@, s[0].1@) =~= a.insert(s[0].0@, s[0].1@).insert(k, e.1@));
        assert(entries_view(p) =~= entries_view(s).insert(k, e.1@));
    }
}

pub proof fn lemma_remove_matching(s: Seq<(String, Frame)>, i: int, k: Seq<char>)
    requires
        0 <= i < s.len(),
        s[i].0@ == k,
    ensures
        entries_view(s.remove(i)).remove(k) == entries_view(s).remove(k),
    decreases s.len(),
{
    let r = s.remove(i);
    let t = s.subrange(1, s.len() as int);
    if i == 0 {
        assert(r == t);
        assert(entries_view(s) == entries_view(t).insert(s[0].0@, s[0].1@));
        assert(entries_view(r).remove(k) =~= entries_view(s).remove(k));
    } else {
        let tr = r.subrange(1, r.len() as int);
        assert(tr == t.remove(i - 1));
        assert(t[i - 1] == s[i]);
        lemma_remove_matching(t, i - 1, k);
        assert(r[0] == s[0]);
        assert(entries_view(r) == entries_view(tr).insert(s[0].0@, s[0].1@));
        assert(entries_view(s) == entries_view(t).insert(s[0].0@, s[0].1@));
        let a = entries_view(tr);
        let b = entries_view(t);
        assert(a.remove(k) == b.remove(k));
        if s[0].0@ == k {
            assert(a.insert(k, s[0].1@).remove(k) =~= a.remove(k));
            assert(b.insert(k, s[0].1@).remove(k) =~= b.remove(k));
        } else {
            assert(a.insert(s[0].0@, s[0].1@).remove(k) =~= a.remove(k).insert(s[0].0@, s[0].1@));
            assert(b.insert(s[0].0@, s[0].1@).remove(k) =~= b.remove(k).insert(s[0].0@, s[0].1@));
        }
    }
}

/// The position of the first pair whose key is `key`.
pub fn find_entry(entries: &Vec<(String, Frame)>, key: &String) -> (r: Option<usize>)
    ensures
        r matches Some(i) ==> first_index(entries@, key@, i as int),
        r is None ==> key_absent(entries@, key@),
{
    let mut i: usize = 0;
    while i < entries.len()
        invariant
            i <= entries.len(),
            forall|j: int| 0 <= j < i ==> (#[trigger] entries@[j]).0@ != key@,
        decreases entries.len() - i,
    {
        if entries[i].0 == *key {
            return Some(i);
        }
        i = i + 1;
    }
    None
}

/// The frame stored under `key`, if any.
pub fn lookup_entry<'a>(entries: &'a Vec<(String, Frame)>, key: &String) -> (r: Option<&'a Frame>)
    ensures
        r matches Some(f) ==> entries_view(entries@).contains_key(key@) && f@ == entries_view(
            entries@,
        )[key@],
        r is None ==> !entries_view(entries@).contains_key(key@),
{
    match find_entry(entries, key) {
        Some(i) => {
            proof {
                lemma_lookup_first(entries@, key@, i as int);
            }
            Some(&entries[i].1)
        },
        None => {
            proof {
                lemma_lookup_absent(entries@, key@);
            }
            None
        },
    }
}

/// Stores `value` under `key`, replacing what the key held.
pub fn insert_entry(entries: &mut Vec<(String, Frame)>, key: String, value: Frame)
    ensures
        entries_view(final(entries)@) == entries_view(old(entries)@).insert(key@, value@),
{
    match find_entry(entries, &key) {
        Some(i) => {
            proof {
                lemma_update_first(entries@, i as int, (key, value));
            }
            entries.set(i, (key, value));
        },
        None => {
            proof {
                lemma_push_absent(entries@, (key, value));
            }
            entries.push((key, value));
        },
    }
}

/// Removes every pair whose key is `key`; tells whether the key was present.
pub fn remove_entry(entries: &mut Vec<(String, Frame)>, key: &String) -> (found: bool)
    ensures
        entries_view(final(entries)@) == entries_view(old(entries)@).remove(key@),
        found == entries_view(old(entries)@).contains_key(key@),
{
    let ghost orig = entries@;
    let mut found = false;
    let mut i: usize = 0;
    while i < entries.len()
        invariant
            i <= entries.len(),
            forall|j: int| 0 <= j < i ==> (#[trigger] entries@[j]).0@ != key@,
            entries_view(entries@).remove(key@) == entries_view(orig).remove(key@),
            found || entries_view(entries@).contains_key(key@) == entries_view(orig).contains_key(
                key@,
            ),
            found ==> entries_view(orig).contains_key(key@),
        decreases entries.len() - i,
    {
        if entries[i].0 == *key {
            proof {
                lemma_remove_matching(entries@, i as int, key@);
                assert(first_index(entries@, key@, i as int));
                lemma_lookup_first(entries@, key@, i as int);
            }
            entries.remove(i);
            found = true;
        } else {
            i = i + 1;
        }
    }
    proof {
        lemma_lookup_absent(entries@, key@);
        assert(entries_view(entries@) =~= entries_view(entries@).remove(key@));
    }
    found
}

} // verus!
