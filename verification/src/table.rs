//! Tables in insertion order: sequences of entries, each a key and a value.
//! A key is looked up from the front; inserting under a key that is present
//! replaces the value where the key stands.

use vstd::prelude::*;

use crate::grammar::{views, CId, Language, ProductionSet};

verus! {

/// The keys of a table, in order.
pub open spec fn keys_of<K, V>(t: Seq<(K, V)>) -> Seq<K> {
    Seq::new(t.len(), |i: int| t[i].0)
}

/// The first position of `k` among the keys, if it is there.
pub open spec fn position<K, V>(t: Seq<(K, V)>, k: K) -> Option<int> {
    keys_of(t).index_of_first(k)
}

/// The value under `k`, if the key is there.
pub open spec fn table_get<K, V>(t: Seq<(K, V)>, k: K) -> Option<V> {
    match position(t, k) {
        Some(i) => Some(t[i].1),
        None => None,
    }
}

/// The table with `v` under `k`.
pub open spec fn table_insert<K, V>(t: Seq<(K, V)>, k: K, v: V) -> Seq<(K, V)> {
    match position(t, k) {
        Some(i) => t.update(i, (k, v)),
        None => t.push((k, v)),
    }
}

/// The table that inserting the entries one after the other gives.
pub open spec fn table_of<K, V>(entries: Seq<(K, V)>) -> Seq<(K, V)>
    decreases entries.len(),
{
    if entries.len() == 0 {
        Seq::empty()
    } else {
        table_insert(table_of(entries.drop_last()), entries.last().0, entries.last().1)
    }
}

/// No key stands twice.
pub open spec fn distinct_keys<K, V>(t: Seq<(K, V)>) -> bool {
    forall|i: int, j: int| 0 <= i < j < t.len() ==> t[i].0 != t[j].0
}

/// `position` gives the first index that holds the key.
pub proof fn lemma_position<K, V>(t: Seq<(K, V)>, k: K)
    ensures
        match position(t, k) {
            Some(i) => 0 <= i < t.len() && t[i].0 == k && forall|j: int|
                0 <= j < i ==> t[j].0 != k,
            None => forall|j: int| 0 <= j < t.len() ==> t[j].0 != k,
        },
{
    let keys = keys_of(t);
    keys.index_of_first_ensures(k);
    match position(t, k) {
        Some(i) => {
            assert(keys[i] == k);
            assert forall|j: int| 0 <= j < i implies t[j].0 != k by {
                assert(keys[j] != k);
            }
        },
        None => {
            assert forall|j: int| 0 <= j < t.len() implies t[j].0 != k by {
                if t[j].0 == k {
                    assert(keys[j] == k);
                    assert(keys.contains(k));
                }
            }
        },
    }
}

/// An index that holds the key, with no earlier one, is the position.
pub proof fn lemma_position_is<K, V>(t: Seq<(K, V)>, k: K, i: int)
    requires
        0 <= i < t.len(),
        t[i].0 == k,
        forall|j: int| 0 <= j < i ==> t[j].0 != k,
    ensures
        position(t, k) == Some(i),
{
    lemma_position(t, k);
    match position(t, k) {
        Some(p) => {
            if p < i {
                assert(t[p].0 != k);
            }
            if i < p {
                assert(t[i].0 != k);
            }
        },
        None => {
            assert(t[i].0 != k);
        },
    }
}

/// Where no index holds the key, there is no position.
pub proof fn lemma_position_none<K, V>(t: Seq<(K, V)>, k: K)
    requires
        forall|j: int| 0 <= j < t.len() ==> t[j].0 != k,
    ensures
        position(t, k) is None,
{
    lemma_position(t, k);
    if let Some(p) = position(t, k) {
        assert(t[p].0 != k);
    }
}

/// Inserting keeps the keys distinct.
pub proof fn lemma_insert_distinct<K, V>(t: Seq<(K, V)>, k: K, v: V)
    requires
        distinct_keys(t),
    ensures
        distinct_keys(table_insert(t, k, v)),
{
    lemma_position(t, k);
    let r = table_insert(t, k, v);
    assert forall|i: int, j: int| 0 <= i < j < r.len() implies r[i].0 != r[j].0 by {
        match position(t, k) {
            Some(p) => {
                assert(r[i].0 == t[i].0);
                assert(r[j].0 == t[j].0);
            },
            None => {
                if j == t.len() {
                    assert(t[i].0 != k);
                }
            },
        }
    }
}

/// A table made by insertion has distinct keys.
pub proof fn lemma_table_of_distinct<K, V>(entries: Seq<(K, V)>)
    ensures
        distinct_keys(table_of(entries)),
    decreases entries.len(),
{
    if entries.len() > 0 {
        lemma_table_of_distinct(entries.drop_last());
        lemma_insert_distinct(
            table_of(entries.drop_last()),
            entries.last().0,
            entries.last().1,
        );
    }
}

/// Inserting the entries of a table with distinct keys gives the table.
pub proof fn lemma_table_of_table<K, V>(t: Seq<(K, V)>)
    requires
        distinct_keys(t),
    ensures
        table_of(t) == t,
    decreases t.len(),
{
    if t.len() > 0 {
        let head = t.drop_last();
        lemma_table_of_table(head);
        assert forall|j: int| 0 <= j < head.len() implies head[j].0 != t.last().0 by {
            assert(t[j].0 != t[t.len() - 1].0);
        }
        lemma_position_none(head, t.last().0);
        assert(head.push((t.last().0, t.last().1)) =~= t);
    } else {
        assert(table_of(t) =~= t);
    }
}

/// Each entry of a table made by insertion has its key from one of the
/// entries and its value from one of them.
pub proof fn lemma_table_of_members<K, V>(entries: Seq<(K, V)>, i: int)
    requires
        0 <= i < table_of(entries).len(),
    ensures
        exists|a: int| 0 <= a < entries.len() && entries[a].0 == table_of(entries)[i].0,
        exists|b: int| 0 <= b < entries.len() && entries[b].1 == table_of(entries)[i].1,
        table_of(entries).len() <= entries.len(),
    decreases entries.len(),
{
    if entries.len() > 0 {
        let head = entries.drop_last();
        let t = table_of(head);
        let last = entries.len() - 1;
        lemma_position(t, entries.last().0);
        lemma_table_of_len(head);
        let r = table_of(entries);
        if i < t.len() && r[i] == t[i] {
            lemma_table_of_members(head, i);
            let a = choose|a: int| 0 <= a < head.len() && head[a].0 == t[i].0;
            assert(entries[a].0 == r[i].0);
            let b = choose|b: int| 0 <= b < head.len() && head[b].1 == t[i].1;
            assert(entries[b].1 == r[i].1);
        } else {
            assert(entries[last].0 == r[i].0);
            assert(entries[last].1 == r[i].1);
        }
    }
}

/// A table made by insertion is no longer than the list of entries.
pub proof fn lemma_table_of_len<K, V>(entries: Seq<(K, V)>)
    ensures
        table_of(entries).len() <= entries.len(),
    decreases entries.len(),
{
    if entries.len() > 0 {
        lemma_table_of_len(entries.drop_last());
        lemma_position(table_of(entries.drop_last()), entries.last().0);
    }
}

/// The table of the first `n + 1` entries is the table of the first `n`
/// with one entry more.
pub proof fn lemma_table_of_step<K, V>(entries: Seq<(K, V)>, x: (K, V))
    ensures
        table_of(entries.push(x)) == table_insert(table_of(entries), x.0, x.1),
{
    assert(entries.push(x).drop_last() =~= entries);
}

/// The sequence without its repetitions: each item where it first stands.
pub open spec fn without_repeats<T>(s: Seq<T>) -> Seq<T>
    decreases s.len(),
{
    if s.len() == 0 {
        Seq::empty()
    } else {
        let head = without_repeats(s.drop_last());
        if head.contains(s.last()) {
            head
        } else {
            head.push(s.last())
        }
    }
}

/// What `without_repeats` keeps of a sequence with one item more.
pub proof fn lemma_without_repeats_step<T>(s: Seq<T>, x: T)
    ensures
        without_repeats(s.push(x)) == if without_repeats(s).contains(x) {
            without_repeats(s)
        } else {
            without_repeats(s).push(x)
        },
{
    assert(s.push(x).drop_last() =~= s);
}

/// What `without_repeats` keeps: items of the sequence, none twice, and no
/// more of them than the sequence has.
pub proof fn lemma_without_repeats<T>(s: Seq<T>)
    ensures
        without_repeats(s).no_duplicates(),
        without_repeats(s).len() <= s.len(),
        forall|x: T| without_repeats(s).contains(x) <==> s.contains(x),
    decreases s.len(),
{
    if s.len() > 0 {
        let head = s.drop_last();
        let w = without_repeats(head);
        lemma_without_repeats(head);
        let r = without_repeats(s);
        assert forall|x: T| r.contains(x) <==> s.contains(x) by {
            if r.contains(x) {
                let i = choose|i: int| 0 <= i < r.len() && r[i] == x;
                if i < w.len() {
                    assert(w[i] == x);
                    assert(w.contains(x));
                    assert(head.contains(x));
                    let j = choose|j: int| 0 <= j < head.len() && head[j] == x;
                    assert(s[j] == x);
                } else {
                    assert(s[s.len() - 1] == x);
                }
            }
            if s.contains(x) {
                let j = choose|j: int| 0 <= j < s.len() && s[j] == x;
                if j < head.len() {
                    assert(head[j] == x);
                    assert(head.contains(x));
                    assert(w.contains(x));
                    let i = choose|i: int| 0 <= i < w.len() && w[i] == x;
                    assert(r[i] == x);
                } else {
                    if w.contains(x) {
                        let i = choose|i: int| 0 <= i < w.len() && w[i] == x;
                        assert(r[i] == x);
                    } else {
                        assert(r[r.len() - 1] == x);
                    }
                }
            }
        }
        if !w.contains(s.last()) {
            assert forall|i: int, j: int| 0 <= i < r.len() && 0 <= j < r.len() && i != j implies r[i]
                != r[j] by {
                if i == w.len() {
                    if r[j] == r[i] {
                        assert(w[j] == s.last());
                        assert(w.contains(s.last()));
                    }
                } else if j == w.len() {
                    if r[j] == r[i] {
                        assert(w[i] == s.last());
                        assert(w.contains(s.last()));
                    }
                } else {
                    assert(w[i] != w[j]);
                }
            }
        }
    } else {
        assert forall|x: T| without_repeats(s).contains(x) <==> s.contains(x) by {
            if s.contains(x) {
                let j = choose|j: int| 0 <= j < s.len() && s[j] == x;
            }
            if without_repeats(s).contains(x) {
                let j = choose|j: int| 0 <= j < without_repeats(s).len() && without_repeats(
                    s,
                )[j] == x;
            }
        }
    }
}

/// A sequence without repetitions is what `without_repeats` keeps of it.
pub proof fn lemma_without_repeats_same<T>(s: Seq<T>)
    requires
        s.no_duplicates(),
    ensures
        without_repeats(s) == s,
    decreases s.len(),
{
    if s.len() > 0 {
        let head = s.drop_last();
        lemma_without_repeats_same(head);
        if head.contains(s.last()) {
            let j = choose|j: int| 0 <= j < head.len() && head[j] == s.last();
            assert(s[j] == s[s.len() - 1]);
        }
        assert(head.push(s.last()) =~= s);
    } else {
        assert(without_repeats(s) =~= s);
    }
}

/// The first index of the table whose key reads as `key`, if there is one.
pub fn find_cid<V: View>(table: &Vec<(CId, V)>, key: &CId) -> (r: Option<usize>)
    ensures
        match r {
            Some(i) => i < table.len() && position(views(table@), key@) == Some(i as int),
            None => position(views(table@), key@) is None,
        },
{
    let mut i: usize = 0;
    while i < table.len()
        invariant
            i <= table.len(),
            forall|j: int| 0 <= j < i ==> views(table@)[j].0 != key@,
        decreases table.len() - i,
    {
        if table[i].0.0 == key.0 {
            proof {
                lemma_position_is(views(table@), key@, i as int);
            }
            return Some(i);
        }
        i += 1;
    }
    proof {
        lemma_position_none(views(table@), key@);
    }
    None
}

/// The first index of the table whose key names the language, if there is
/// one.
pub fn find_language<V: View>(table: &Vec<(Language, V)>, key: &Language) -> (r: Option<usize>)
    ensures
        match r {
            Some(i) => i < table.len() && position(views(table@), key@) == Some(i as int),
            None => position(views(table@), key@) is None,
        },
{
    let mut i: usize = 0;
    while i < table.len()
        invariant
            i <= table.len(),
            forall|j: int| 0 <= j < i ==> views(table@)[j].0 != key@,
        decreases table.len() - i,
    {
        if table[i].0.0.0 == key.0.0 {
            proof {
                lemma_position_is(views(table@), key@, i as int);
            }
            return Some(i);
        }
        i += 1;
    }
    proof {
        lemma_position_none(views(table@), key@);
    }
    None
}

/// Puts `value` under `key`: in place of the value that stands under the
/// key, or at the end where the key is new.
pub fn insert_cid<V: View>(table: &mut Vec<(CId, V)>, key: CId, value: V)
    ensures
        views(final(table)@) == table_insert(views(old(table)@), key@, value@),
{
    match find_cid(table, &key) {
        Some(i) => {
            table.set(i, (key, value));
            assert(views(table@) =~= table_insert(views(old(table)@), key@, value@));
        },
        None => {
            table.push((key, value));
            assert(views(table@) =~= table_insert(views(old(table)@), key@, value@));
        },
    }
}

/// The first index of the table that holds the productions of `fid`.
pub fn find_productions(table: &Vec<ProductionSet>, fid: i32) -> (r: Option<usize>)
    ensures
        match r {
            Some(i) => i < table.len() && position(views(table@), fid) == Some(i as int),
            None => position(views(table@), fid) is None,
        },
{
    let mut i: usize = 0;
    while i < table.len()
        invariant
            i <= table.len(),
            forall|j: int| 0 <= j < i ==> views(table@)[j].0 != fid,
        decreases table.len() - i,
    {
        if table[i].fid == fid {
            proof {
                lemma_position_is(views(table@), fid, i as int);
            }
            return Some(i);
        }
        i += 1;
    }
    proof {
        lemma_position_none(views(table@), fid);
    }
    None
}

} // verus!
