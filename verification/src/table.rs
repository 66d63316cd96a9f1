//! Tables: values kept under keys, in the order of the keys.
use vstd::prelude::*;
use vstd::string::*;

use crate::text::{
    before, find, has, increasing, lemma_precedes_irreflexive, lemma_precedes_total,
    lemma_precedes_transitive, lemma_texts_push, precedes, same, texts,
};

verus! {

/// The models of keys with their values.
pub open spec fn pairs<T: View>(v: Seq<(String, T)>) -> Seq<(Seq<char>, T::V)> {
    Seq::new(v.len(), |i: int| (v[i].0@, v[i].1@))
}

/// Appending an entry appends its model.
pub broadcast proof fn lemma_pairs_push<T: View>(v: Seq<(String, T)>, e: (String, T))
    ensures
        #[trigger] pairs(v.push(e)) == pairs(v).push((e.0@, e.1@)),
{
    assert(pairs(v.push(e)) =~= pairs(v).push((e.0@, e.1@)));
}

/// The first place from `from` on whose key does not precede a key.
pub open spec fn place<V>(s: Seq<(Seq<char>, V)>, key: Seq<char>, from: int) -> int
    decreases s.len() - from,
{
    if from >= s.len() {
        s.len() as int
    } else if precedes(s[from].0, key) {
        place(s, key, from + 1)
    } else {
        from
    }
}

/// The value under a key.
pub open spec fn lookup<V>(s: Seq<(Seq<char>, V)>, key: Seq<char>) -> Option<V> {
    let i = place(s, key, 0);
    if i < s.len() && s[i].0 == key {
        Some(s[i].1)
    } else {
        None
    }
}

/// The entries with a value put under a key, in place of one that was there.
pub open spec fn put<V>(s: Seq<(Seq<char>, V)>, key: Seq<char>, value: V) -> Seq<(Seq<char>, V)> {
    let i = place(s, key, 0);
    if i < s.len() && s[i].0 == key {
        s.update(i, (key, value))
    } else {
        s.insert(i, (key, value))
    }
}

/// Putting in entries one after another.
pub open spec fn put_all<V>(
    s: Seq<(Seq<char>, V)>,
    more: Seq<(Seq<char>, V)>,
) -> Seq<(Seq<char>, V)>
    decreases more.len(),
{
    if more.len() == 0 {
        s
    } else {
        put(put_all(s, more.drop_last()), more.last().0, more.last().1)
    }
}

/// The keys of entries.
pub open spec fn keys_of<V>(s: Seq<(Seq<char>, V)>) -> Seq<Seq<char>> {
    Seq::new(s.len(), |i: int| s[i].0)
}

/// Whether entries stand in the order of their keys, each key once.
pub open spec fn ordered<V>(s: Seq<(Seq<char>, V)>) -> bool {
    increasing(keys_of(s))
}

/// The place of a key: all keys before it precede it.
pub proof fn lemma_place<V>(s: Seq<(Seq<char>, V)>, key: Seq<char>, from: int)
    requires
        0 <= from <= s.len(),
    ensures
        from <= place(s, key, from) <= s.len(),
        forall|k: int|
            from <= k < place(s, key, from) ==> precedes((#[trigger] s[k]).0, key),
        place(s, key, from) < s.len() ==> !precedes(s[place(s, key, from)].0, key),
    decreases s.len() - from,
{
    if from < s.len() && precedes(s[from].0, key) {
        lemma_place(s, key, from + 1);
    }
}

/// In order, a key stands at its place or nowhere.
proof fn lemma_lookup_at<V>(s: Seq<(Seq<char>, V)>, key: Seq<char>, i: int)
    requires
        ordered(s),
        0 <= i < s.len(),
        s[i].0 == key,
    ensures
        place(s, key, 0) == i,
{
    lemma_place(s, key, 0);
    let p = place(s, key, 0);
    if p < i {
        assert(keys_of(s)[p] == s[p].0 && keys_of(s)[i] == s[i].0);
    } else if i < p {
        lemma_precedes_irreflexive(key);
    }
}

/// A value put under a key is read back from it, and the values under other
/// keys stay; the entries stay in order.
pub proof fn law_put<V>(s: Seq<(Seq<char>, V)>, key: Seq<char>, value: V, other: Seq<char>)
    requires
        ordered(s),
    ensures
        ordered(put(s, key, value)),
        lookup(put(s, key, value), key) == Some(value),
        other != key ==> lookup(put(s, key, value), other) == lookup(s, other),
{
    let i = place(s, key, 0);
    let t = put(s, key, value);
    lemma_place(s, key, 0);
    let a = keys_of(s);
    let b = keys_of(t);
    let found = i < s.len() && s[i].0 == key;
    if found {
        assert(b =~= a);
    } else {
        assert(b =~= a.insert(i, key));
    }
    assert forall|x: int, y: int| 0 <= x < y < b.len() implies precedes(
        #[trigger] b[x],
        #[trigger] b[y],
    ) by {
        if !found {
            if x < i {
                assert(a[x] == s[x].0);
            } else if x == i {
                lemma_precedes_total(s[i].0, key);
                assert(a[i] == s[i].0);
                if y - 1 > i {
                    lemma_precedes_transitive(key, a[i], a[y - 1]);
                }
            }
        }
    }
    assert(t[i].0 == key);
    lemma_lookup_at(t, key, i);
    if other != key {
        lemma_place(s, other, 0);
        lemma_place(t, other, 0);
        let p = place(s, other, 0);
        let q = place(t, other, 0);
        if p < s.len() && s[p].0 == other {
            let m = if found {
                p
            } else if p < i {
                p
            } else {
                p + 1
            };
            assert(t[m].0 == other && t[m].1 == s[p].1);
            lemma_lookup_at(t, other, m);
        } else if q < t.len() && t[q].0 == other {
            let m = if found {
                q
            } else if q < i {
                q
            } else {
                q - 1
            };
            assert(s[m].0 == other);
            lemma_lookup_at(s, other, m);
        }
    }
}

/// The value under a key of entries in order is that of the one entry with it;
/// there is none where no entry has the key.
pub proof fn law_ordered_entries_are_found<V>(s: Seq<(Seq<char>, V)>, key: Seq<char>)
    requires
        ordered(s),
    ensures
        forall|i: int| 0 <= i < s.len() && (#[trigger] s[i]).0 == key ==> lookup(s, key) == Some(
            s[i].1,
        ),
        lookup(s, key) is Some ==> exists|i: int|
            0 <= i < s.len() && #[trigger] s[i] == (key, lookup(s, key)->Some_0),
{
    assert forall|i: int| 0 <= i < s.len() && (#[trigger] s[i]).0 == key implies lookup(s, key)
        == Some(s[i].1) by {
        lemma_lookup_at(s, key, i);
    }
    lemma_place(s, key, 0);
    if lookup(s, key) is Some {
        let i = place(s, key, 0);
        assert(s[i] == (key, lookup(s, key)->Some_0));
    }
}

/// Entries that are put in one after another stay in order. Where they came in
/// order themselves, the value under a key is theirs, else the one from before.
pub proof fn law_put_all<V>(s: Seq<(Seq<char>, V)>, more: Seq<(Seq<char>, V)>, key: Seq<char>)
    requires
        ordered(s),
    ensures
        ordered(put_all(s, more)),
        ordered(more) ==> lookup(put_all(s, more), key) == (if lookup(more, key) is Some {
            lookup(more, key)
        } else {
            lookup(s, key)
        }),
    decreases more.len(),
{
    if more.len() > 0 {
        let first = more.drop_last();
        let (name, value) = more.last();
        law_put_all(s, first, key);
        law_put(put_all(s, first), name, value, key);
        if ordered(more) {
            assert forall|i: int, j: int| 0 <= i < j < keys_of(first).len() implies precedes(
                #[trigger] keys_of(first)[i],
                #[trigger] keys_of(first)[j],
            ) by {
                assert(keys_of(more)[i] == keys_of(first)[i]);
                assert(keys_of(more)[j] == keys_of(first)[j]);
            }
            lemma_place(first, name, 0);
            let at = place(first, name, 0);
            if at < first.len() {
                assert(keys_of(more)[at] == first[at].0);
                assert(keys_of(more)[more.len() - 1] == name);
            }
            assert(more =~= put(first, name, value));
            law_put(first, name, value, key);
        }
    }
}

/// Values kept under texts, in the order of the texts. The order is that of the
/// operations: a new table is in order, and a table that is in order stays so.
#[derive(Debug)]
pub struct Table<T> {
    pub entries: Vec<(String, T)>,
}

impl<T: View> View for Table<T> {
    type V = Seq<(Seq<char>, T::V)>;

    open spec fn view(&self) -> Seq<(Seq<char>, T::V)> {
        pairs(self.entries@)
    }
}

impl<T: View> Table<T> {
    pub fn new() -> (r: Table<T>)
        ensures
            r@.len() == 0,
            r@ == Seq::<(Seq<char>, T::V)>::empty(),
            ordered(r@),
    {
        let r = Table { entries: Vec::new() };
        assert(r@ =~= Seq::empty());
        r
    }

    /// Where a key stands or would stand, and whether it is there.
    pub fn find(&self, key: &str) -> (r: (usize, bool))
        ensures
            r.0 == place(self@, key@, 0),
            r.0 <= self.entries.len(),
            r.1 == (r.0 < self@.len() && self@[r.0 as int].0 == key@),
    {
        let ghost s = self@;
        let mut i: usize = 0;
        while i < self.entries.len()
            invariant
                i <= self.entries.len(),
                s == self@,
                place(s, key@, 0) == place(s, key@, i as int),
            decreases self.entries.len() - i,
        {
            assert(s[i as int].0 == self.entries@[i as int].0@);
            if !before(&self.entries[i].0, key) {
                let found = same(&self.entries[i].0, key);
                return (i, found);
            }
            i += 1;
        }
        (i, false)
    }

    /// The value under a key.
    pub fn get(&self, key: &str) -> (r: Option<&T>)
        ensures
            match r {
                Some(v) => lookup(self@, key@) == Some(v@),
                None => lookup(self@, key@) is None,
            },
    {
        let (i, found) = self.find(key);
        if found {
            assert(self@[i as int].1 == self.entries@[i as int].1@);
            Some(&self.entries[i].1)
        } else {
            None
        }
    }

    /// Whether there is a value under a key.
    pub fn has(&self, key: &str) -> (r: bool)
        ensures
            r == (lookup(self@, key@) is Some),
    {
        let (_, found) = self.find(key);
        found
    }

    /// Puts a value under a key.
    pub fn put(&mut self, key: &str, value: T)
        ensures
            final(self)@ == put(old(self)@, key@, value@),
            ordered(old(self)@) ==> ordered(final(self)@),
    {
        let (i, found) = self.find(key);
        let ghost s = self@;
        let ghost v = value@;
        proof {
            if ordered(s) {
                law_put(s, key@, v, key@);
            }
        }
        if found {
            self.entries.set(i, (key.to_owned(), value));
            assert(self@ =~= s.update(i as int, (key@, v)));
        } else {
            self.entries.insert(i, (key.to_owned(), value));
            assert(self@ =~= s.insert(i as int, (key@, v)));
        }
    }

    /// The keys in order.
    pub fn keys(&self) -> (r: Vec<String>)
        ensures
            texts(r@) == keys_of(self@),
            ordered(self@) ==> increasing(texts(r@)),
    {
        broadcast use lemma_texts_push;

        let mut r: Vec<String> = Vec::new();
        let ghost all = keys_of(self@);
        assert(texts(r@) =~= all.take(0));
        let mut i: usize = 0;
        while i < self.entries.len()
            invariant
                i <= self.entries.len(),
                all == keys_of(self@),
                texts(r@) == all.take(i as int),
            decreases self.entries.len() - i,
        {
            r.push(self.entries[i].0.clone());
            assert(all.take(i + 1) =~= all.take(i as int).push(all[i as int]));
            i += 1;
        }
        assert(all.take(all.len() as int) =~= all);
        r
    }
}

// ---------------------------------------------------------------------------
// Entries in any order

/// The first place from `from` on with a key.
pub open spec fn key_at<V>(s: Seq<(Seq<char>, V)>, key: Seq<char>, from: int) -> Option<int>
    decreases s.len() - from,
{
    if from >= s.len() {
        None
    } else if s[from].0 == key {
        Some(from)
    } else {
        key_at(s, key, from + 1)
    }
}

/// The value of the first entry with a key.
pub open spec fn entry_of<V>(s: Seq<(Seq<char>, V)>, key: Seq<char>) -> Option<V> {
    match key_at(s, key, 0) {
        Some(i) => Some(s[i].1),
        None => None,
    }
}

/// The entries with a value under a key: in place of the first that was there,
/// else after all others.
pub open spec fn with_entry<V>(s: Seq<(Seq<char>, V)>, key: Seq<char>, value: V) -> Seq<
    (Seq<char>, V),
> {
    match key_at(s, key, 0) {
        Some(i) => s.update(i, (key, value)),
        None => s.push((key, value)),
    }
}

/// Whether the first place from `from` on with a key is the given one.
pub open spec fn first_place<V>(
    s: Seq<(Seq<char>, V)>,
    key: Seq<char>,
    from: int,
    at: Option<int>,
) -> bool {
    match at {
        Some(i) => from <= i < s.len() && s[i].0 == key && forall|k: int|
            from <= k < i ==> (#[trigger] s[k]).0 != key,
        None => forall|k: int| from <= k < s.len() ==> (#[trigger] s[k]).0 != key,
    }
}

/// The place that is found is the first.
pub proof fn lemma_key_at<V>(s: Seq<(Seq<char>, V)>, key: Seq<char>, from: int)
    requires
        0 <= from,
    ensures
        first_place(s, key, from, key_at(s, key, from)),
    decreases s.len() - from,
{
    if from < s.len() && s[from].0 != key {
        lemma_key_at(s, key, from + 1);
    }
}

/// The first place is the one that is found.
pub proof fn lemma_key_at_is<V>(
    s: Seq<(Seq<char>, V)>,
    key: Seq<char>,
    from: int,
    at: Option<int>,
)
    requires
        0 <= from,
        first_place(s, key, from, at),
    ensures
        key_at(s, key, from) == at,
    decreases s.len() - from,
{
    if from < s.len() && s[from].0 != key {
        lemma_key_at_is(s, key, from + 1, at);
    }
}

/// The first entry with a key gives the value under it.
pub proof fn lemma_entry_at<V>(s: Seq<(Seq<char>, V)>, i: int)
    requires
        0 <= i < s.len(),
        forall|k: int| 0 <= k < i ==> (#[trigger] s[k]).0 != s[i].0,
    ensures
        entry_of(s, s[i].0) == Some(s[i].1),
{
    lemma_key_at_is(s, s[i].0, 0, Some(i));
}

/// The value under a key is that of the first entry with it; there is none where
/// no entry has the key.
pub proof fn law_entries_are_found<V>(s: Seq<(Seq<char>, V)>, key: Seq<char>)
    ensures
        match entry_of(s, key) {
            Some(v) => exists|i: int|
                0 <= i < s.len() && #[trigger] s[i] == (key, v) && forall|k: int|
                    0 <= k < i ==> (#[trigger] s[k]).0 != key,
            None => forall|k: int| 0 <= k < s.len() ==> (#[trigger] s[k]).0 != key,
        },
{
    lemma_key_at(s, key, 0);
    if let Some(i) = key_at(s, key, 0) {
        assert(s[i] == (key, s[i].1));
    }
}

/// A value put under a key is read back from it, and the values under other
/// keys stay.
pub proof fn law_with_entry<V>(
    s: Seq<(Seq<char>, V)>,
    key: Seq<char>,
    value: V,
    other: Seq<char>,
)
    ensures
        entry_of(with_entry(s, key, value), key) == Some(value),
        other != key ==> entry_of(with_entry(s, key, value), other) == entry_of(s, other),
{
    let new = with_entry(s, key, value);
    lemma_key_at(s, key, 0);
    lemma_key_at(s, other, 0);
    let at = match key_at(s, key, 0) {
        Some(i) => i,
        None => s.len() as int,
    };
    assert forall|k: int| 0 <= k < at implies (#[trigger] new[k]).0 != key by {
        assert(new[k] == s[k]);
    }
    lemma_key_at_is(new, key, 0, Some(at));
    if other != key {
        match key_at(s, other, 0) {
            Some(j) => {
                assert(new[j] == s[j]);
                assert forall|k: int| 0 <= k < j implies (#[trigger] new[k]).0 != other by {
                    if k != at {
                        assert(new[k] == s[k]);
                    }
                }
                lemma_key_at_is(new, other, 0, Some(j));
            },
            None => {
                assert forall|k: int| 0 <= k < new.len() implies (#[trigger] new[k]).0 != other by {
                    if k != at {
                        assert(new[k] == s[k]);
                    }
                }
                lemma_key_at_is(new, other, 0, None);
            },
        }
    }
}

/// The first place with a key.
pub fn find_key<T: View>(entries: &Vec<(String, T)>, key: &str) -> (r: Option<usize>)
    ensures
        match r {
            Some(i) => key_at(pairs(entries@), key@, 0) == Some(i as int) && i < entries.len(),
            None => key_at(pairs(entries@), key@, 0) is None,
        },
{
    let ghost all = pairs(entries@);
    let mut i: usize = 0;
    while i < entries.len()
        invariant
            i <= entries.len(),
            all == pairs(entries@),
            key_at(all, key@, 0) == key_at(all, key@, i as int),
        decreases entries.len() - i,
    {
        assert(all[i as int].0 == entries@[i as int].0@);
        if same(&entries[i].0, key) {
            return Some(i);
        }
        i += 1;
    }
    None
}

/// Puts a value under a key.
pub fn set_entry<T: View>(entries: &mut Vec<(String, T)>, key: &str, value: T)
    ensures
        pairs(final(entries)@) == with_entry(pairs(old(entries)@), key@, value@),
{
    let ghost all = pairs(entries@);
    let ghost v = value@;
    match find_key(entries, key) {
        Some(i) => {
            entries.set(i, (key.to_owned(), value));
            assert(pairs(entries@) =~= all.update(i as int, (key@, v)));
        },
        None => {
            entries.push((key.to_owned(), value));
            assert(pairs(entries@) =~= all.push((key@, v)));
        },
    }
}

/// Appends an entry.
pub fn push_entry<T: View>(entries: &mut Vec<(String, T)>, key: &str, value: T)
    ensures
        pairs(final(entries)@) == pairs(old(entries)@).push((key@, value@)),
{
    broadcast use lemma_pairs_push;

    entries.push((key.to_owned(), value));
}

/// Entries without those under a key.
pub open spec fn without_entry<V>(s: Seq<(Seq<char>, V)>, key: Seq<char>) -> Seq<(Seq<char>, V)>
    decreases s.len(),
{
    if s.len() == 0 {
        Seq::empty()
    } else if s.last().0 == key {
        without_entry(s.drop_last(), key)
    } else {
        without_entry(s.drop_last(), key).push(s.last())
    }
}

/// Takes away the entries under a key.
pub fn remove_entries<T: View>(entries: &mut Vec<(String, T)>, key: &str)
    ensures
        pairs(final(entries)@) == without_entry(pairs(old(entries)@), key@),
{
    let ghost all = pairs(entries@);
    let mut kept: Vec<(String, T)> = Vec::new();
    assert(pairs(kept@) =~= Seq::empty());
    assert(all.take(0) =~= Seq::empty());
    let ghost mut done: int = 0;
    assert(all.skip(0) =~= all);
    while entries.len() > 0
        invariant
            0 <= done <= all.len(),
            pairs(entries@) == all.skip(done),
            pairs(kept@) == without_entry(all.take(done), key@),
        decreases entries.len(),
    {
        let ghost rest = entries@;
        assert(pairs(rest).len() == rest.len());
        assert(pairs(rest)[0] == (rest[0].0@, rest[0].1@));
        let entry = entries.remove(0);
        proof {
            assert(all.take(done + 1).drop_last() =~= all.take(done));
            assert(all.take(done + 1).last() == all[done]);
            assert forall|k: int| 0 <= k < entries@.len() implies #[trigger] pairs(entries@)[k]
                == all.skip(done + 1)[k] by {
                assert(pairs(rest)[k + 1] == all.skip(done)[k + 1]);
            }
            assert(pairs(entries@) =~= all.skip(done + 1));
            done = done + 1;
        }
        if !same(&entry.0, key) {
            let ghost before = pairs(kept@);
            kept.push(entry);
            assert(pairs(kept@) =~= before.push((entry.0@, entry.1@)));
        }
    }
    assert(all.take(done) =~= all);
    *entries = kept;
}

/// What was taken away is not found, and the entries under other keys stay.
pub proof fn law_without_entry<V>(s: Seq<(Seq<char>, V)>, key: Seq<char>, other: Seq<char>)
    ensures
        entry_of(without_entry(s, key), key) is None,
        other != key ==> entry_of(without_entry(s, key), other) == entry_of(s, other),
    decreases s.len(),
{
    if s.len() > 0 {
        let front = s.drop_last();
        law_without_entry(front, key, other);
        lemma_key_at(front, other, 0);
        lemma_key_at(s, other, 0);
        let kept = without_entry(front, key);
        lemma_key_at(kept, key, 0);
        lemma_key_at(kept, other, 0);
        if s.last().0 != key {
            let new = kept.push(s.last());
            assert forall|k: int| 0 <= k < new.len() implies (#[trigger] new[k]).0 != key by {
                if k < kept.len() {
                    assert(new[k] == kept[k]);
                }
            }
            lemma_key_at_is(new, key, 0, None);
        }
        if other != key {
            match key_at(front, other, 0) {
                Some(i) => {
                    assert(front[i] == s[i]);
                    assert forall|k: int| 0 <= k < i implies (#[trigger] s[k]).0 != other by {
                        assert(front[k] == s[k]);
                    }
                    lemma_key_at_is(s, other, 0, Some(i));
                },
                None => {
                    let at = if s.last().0 == other {
                        Some(front.len() as int)
                    } else {
                        None
                    };
                    assert forall|k: int| 0 <= k < front.len() implies (#[trigger] s[k]).0
                        != other by {
                        assert(front[k] == s[k]);
                    }
                    lemma_key_at_is(s, other, 0, at);
                },
            }
            if s.last().0 != key {
                let new = kept.push(s.last());
                match key_at(kept, other, 0) {
                    Some(i) => {
                        assert(new[i] == kept[i]);
                        assert forall|k: int| 0 <= k < i implies (#[trigger] new[k]).0 != other by {
                            assert(new[k] == kept[k]);
                        }
                        lemma_key_at_is(new, other, 0, Some(i));
                    },
                    None => {
                        let at = if s.last().0 == other {
                            Some(kept.len() as int)
                        } else {
                            None
                        };
                        assert forall|k: int| 0 <= k < kept.len() implies (#[trigger] new[k]).0
                            != other by {
                            assert(new[k] == kept[k]);
                        }
                        lemma_key_at_is(new, other, 0, at);
                    },
                }
            }
        }
    }
}

// ---------------------------------------------------------------------------
// Numbered slots

/// The first place from `from` on whose number is not below a number.
pub open spec fn slot<V>(s: Seq<(u64, V)>, key: u64, from: int) -> int
    decreases s.len() - from,
{
    if from >= s.len() {
        s.len() as int
    } else if s[from].0 < key {
        slot(s, key, from + 1)
    } else {
        from
    }
}

/// The value under a number.
pub open spec fn slot_value<V>(s: Seq<(u64, V)>, key: u64) -> Option<V> {
    let i = slot(s, key, 0);
    if i < s.len() && s[i].0 == key {
        Some(s[i].1)
    } else {
        None
    }
}

/// The slots with a value put under a number, in place of one that was there.
pub open spec fn fill_slot<V>(s: Seq<(u64, V)>, key: u64, value: V) -> Seq<(u64, V)> {
    let i = slot(s, key, 0);
    if i < s.len() && s[i].0 == key {
        s.update(i, (key, value))
    } else {
        s.insert(i, (key, value))
    }
}

/// The models of numbered values.
pub open spec fn slot_views<T: View>(v: Seq<(u64, T)>) -> Seq<(u64, T::V)> {
    Seq::new(v.len(), |i: int| (v[i].0, v[i].1@))
}

/// Values kept under numbers, in the order of the numbers.
#[derive(Debug)]
pub struct Slots<T> {
    pub entries: Vec<(u64, T)>,
}

impl<T: View> View for Slots<T> {
    type V = Seq<(u64, T::V)>;

    open spec fn view(&self) -> Seq<(u64, T::V)> {
        slot_views(self.entries@)
    }
}

impl<T: View> Slots<T> {
    pub fn new() -> (r: Slots<T>)
        ensures
            r@ == Seq::<(u64, T::V)>::empty(),
    {
        let r = Slots { entries: Vec::new() };
        assert(r@ =~= Seq::empty());
        r
    }

    fn find(&self, key: u64) -> (r: (usize, bool))
        ensures
            r.0 == slot(self@, key, 0),
            r.0 <= self.entries.len(),
            r.1 == (r.0 < self@.len() && self@[r.0 as int].0 == key),
    {
        let ghost s = self@;
        let mut i: usize = 0;
        while i < self.entries.len()
            invariant
                i <= self.entries.len(),
                s == self@,
                slot(s, key, 0) == slot(s, key, i as int),
            decreases self.entries.len() - i,
        {
            assert(s[i as int].0 == self.entries@[i as int].0);
            if self.entries[i].0 >= key {
                return (i, self.entries[i].0 == key);
            }
            i += 1;
        }
        (i, false)
    }

    /// The value under a number.
    pub fn get(&self, key: u64) -> (r: Option<&T>)
        ensures
            match r {
                Some(v) => slot_value(self@, key) == Some(v@),
                None => slot_value(self@, key) is None,
            },
    {
        let (i, found) = self.find(key);
        if found {
            assert(self@[i as int].1 == self.entries@[i as int].1@);
            Some(&self.entries[i].1)
        } else {
            None
        }
    }

    /// Puts a value under a number.
    pub fn fill(&mut self, key: u64, value: T)
        ensures
            final(self)@ == fill_slot(old(self)@, key, value@),
    {
        let (i, found) = self.find(key);
        let ghost s = self@;
        let ghost v = value@;
        if found {
            self.entries.set(i, (key, value));
            assert(self@ =~= s.update(i as int, (key, v)));
        } else {
            self.entries.insert(i, (key, value));
            assert(self@ =~= s.insert(i as int, (key, v)));
        }
    }
}

// ---------------------------------------------------------------------------
// Slots in order

/// Whether slots stand in the order of their numbers, each number once.
pub open spec fn in_slots<V>(s: Seq<(u64, V)>) -> bool {
    forall|i: int, j: int| 0 <= i < j < s.len() ==> (#[trigger] s[i]).0 < (#[trigger] s[j]).0
}

/// The place of a slot: all numbers before it are smaller.
pub proof fn lemma_slot<V>(s: Seq<(u64, V)>, key: u64, from: int)
    requires
        0 <= from <= s.len(),
    ensures
        from <= slot(s, key, from) <= s.len(),
        forall|k: int| from <= k < slot(s, key, from) ==> (#[trigger] s[k]).0 < key,
        slot(s, key, from) < s.len() ==> s[slot(s, key, from)].0 >= key,
    decreases s.len() - from,
{
    if from < s.len() && s[from].0 < key {
        lemma_slot(s, key, from + 1);
    }
}

proof fn lemma_slot_at<V>(s: Seq<(u64, V)>, key: u64, i: int)
    requires
        in_slots(s),
        0 <= i < s.len(),
        s[i].0 == key,
    ensures
        slot(s, key, 0) == i,
{
    lemma_slot(s, key, 0);
    let p = slot(s, key, 0);
    if p < i {
        assert(s[p].0 < s[i].0);
    }
}

/// A slot that is filled gives its value back, the other slots stay, and all stay
/// in order.
pub proof fn law_slots_are_filled<V>(s: Seq<(u64, V)>, key: u64, value: V, other: u64)
    requires
        in_slots(s),
    ensures
        in_slots(fill_slot(s, key, value)),
        slot_value(fill_slot(s, key, value), key) == Some(value),
        other != key ==> slot_value(fill_slot(s, key, value), other) == slot_value(s, other),
{
    lemma_slot(s, key, 0);
    let i = slot(s, key, 0);
    let t = fill_slot(s, key, value);
    let found = i < s.len() && s[i].0 == key;
    assert forall|x: int, y: int| 0 <= x < y < t.len() implies (#[trigger] t[x]).0 < (
    #[trigger] t[y]).0 by {
        if found {
            assert(t[x].0 == s[x].0 && t[y].0 == s[y].0);
        } else {
            if y < i {
                assert(s[x].0 < s[y].0);
            } else if y == i {
                assert(s[x].0 < key);
            } else if x < i {
                assert(s[x].0 < s[y - 1].0);
            } else if x == i {
                if i < y - 1 {
                    assert(s[i].0 < s[y - 1].0);
                }
            } else {
                assert(s[x - 1].0 < s[y - 1].0);
            }
        }
    }
    assert(t[i].0 == key);
    lemma_slot_at(t, key, i);
    if other != key {
        lemma_slot(s, other, 0);
        lemma_slot(t, other, 0);
        let p = slot(s, other, 0);
        let q = slot(t, other, 0);
        if p < s.len() && s[p].0 == other {
            let m = if found || p < i {
                p
            } else {
                p + 1
            };
            assert(t[m] == s[p]);
            lemma_slot_at(t, other, m);
        } else if q < t.len() && t[q].0 == other {
            let m = if found || q < i {
                q
            } else {
                q - 1
            };
            assert(s[m] == t[q]);
            lemma_slot_at(s, other, m);
        }
    }
}

/// The slots in order are those that have a value.
pub proof fn law_slots_hold_their_values<V>(s: Seq<(u64, V)>, key: u64)
    requires
        in_slots(s),
    ensures
        forall|i: int| 0 <= i < s.len() && (#[trigger] s[i]).0 == key ==> slot_value(s, key) == Some(
            s[i].1,
        ),
        slot_value(s, key) is Some ==> exists|i: int|
            0 <= i < s.len() && #[trigger] s[i] == (key, slot_value(s, key)->Some_0),
{
    assert forall|i: int| 0 <= i < s.len() && (#[trigger] s[i]).0 == key implies slot_value(s, key)
        == Some(s[i].1) by {
        lemma_slot_at(s, key, i);
    }
    lemma_slot(s, key, 0);
    if slot_value(s, key) is Some {
        let i = slot(s, key, 0);
        assert(s[i] == (key, slot_value(s, key)->Some_0));
    }
}

} // verus!
