//! Entries keyed by strings, in the order they were first stored: storing
//! under a known key replaces that entry in place, removing keeps the order
//! of the rest.
use vstd::prelude::*;

verus! {

/// The entries as keys and values.
pub open spec fn entries_view<T: View>(v: Seq<(String, T)>) -> Seq<(Seq<char>, T::V)> {
    v.map_values(|e: (String, T)| (e.0@, e.1@))
}

/// No key names two entries.
pub open spec fn distinct_keys<V>(v: Seq<(Seq<char>, V)>) -> bool {
    forall|i: int, j: int| 0 <= i < v.len() && 0 <= j < v.len() && i != j ==> v[i].0 != v[j].0
}

/// The position of the entry keyed `k`.
pub open spec fn key_index<V>(v: Seq<(Seq<char>, V)>, k: Seq<char>) -> Option<int> {
    if exists|i: int| 0 <= i < v.len() && v[i].0 == k {
        Some(choose|i: int| 0 <= i < v.len() && v[i].0 == k)
    } else {
        None
    }
}

/// The value stored under `k`.
pub open spec fn value_of<V>(v: Seq<(Seq<char>, V)>, k: Seq<char>) -> Option<V> {
    match key_index(v, k) {
        Some(i) => Some(v[i].1),
        None => None,
    }
}

/// The entries after storing `x` under `k`.
pub open spec fn upserted<V>(v: Seq<(Seq<char>, V)>, k: Seq<char>, x: V) -> Seq<(Seq<char>, V)> {
    match key_index(v, k) {
        Some(i) => v.update(i, (k, x)),
        None => v.push((k, x)),
    }
}

/// The entries after removing the one keyed `k`.
pub open spec fn removed<V>(v: Seq<(Seq<char>, V)>, k: Seq<char>) -> Seq<(Seq<char>, V)> {
    match key_index(v, k) {
        Some(i) => v.remove(i),
        None => v,
    }
}

proof fn lemma_key_index_at<V>(v: Seq<(Seq<char>, V)>, k: Seq<char>, i: int)
    requires
        distinct_keys(v),
        0 <= i < v.len(),
        v[i].0 == k,
    ensures
        key_index(v, k) == Some(i),
{
    let c = choose|c: int| 0 <= c < v.len() && v[c].0 == k;
    if c != i {
        assert(v[c].0 != v[i].0);
    }
}

/// The position of the entry keyed `key`.
pub fn find_key<T: View>(v: &Vec<(String, T)>, key: &str) -> (r: Option<usize>)
    requires
        distinct_keys(entries_view(v@)),
    ensures
        match r {
            Some(i) => key_index(entries_view(v@), key@) == Some(i as int),
            None => key_index(entries_view(v@), key@) is None,
        },
{
    let k = key.to_owned();
    let mut i: usize = 0;
    while i < v.len()
        invariant
            i <= v@.len(),
            k@ == key@,
            distinct_keys(entries_view(v@)),
            forall|j: int| 0 <= j < i ==> #[trigger] entries_view(v@)[j].0 != key@,
        decreases v@.len() - i,
    {
        if v[i].0 == k {
            proof {
                lemma_key_index_at(entries_view(v@), key@, i as int);
            }
            return Some(i);
        }
        i = i + 1;
    }
    None
}

/// Stores `value` under `key`, replacing the entry stored under it before.
pub fn upsert<T: View>(v: &mut Vec<(String, T)>, key: String, value: T)
    requires
        distinct_keys(entries_view(old(v)@)),
    ensures
        entries_view(final(v)@) == upserted(entries_view(old(v)@), key@, value@),
        distinct_keys(entries_view(final(v)@)),
{
    let ghost old_view = entries_view(v@);
    match find_key(v, key.as_str()) {
        Some(i) => {
            v.set(i, (key, value));
            proof {
                assert(entries_view(v@) =~= old_view.update(i as int, (key@, value@)));
            }
        },
        None => {
            v.push((key, value));
            proof {
                assert(entries_view(v@) =~= old_view.push((key@, value@)));
            }
        },
    }
}

/// Removes the entry stored under `key`, if any.
pub fn remove_key<T: View>(v: &mut Vec<(String, T)>, key: &str)
    requires
        distinct_keys(entries_view(old(v)@)),
    ensures
        entries_view(final(v)@) == removed(entries_view(old(v)@), key@),
        distinct_keys(entries_view(final(v)@)),
{
    let ghost old_view = entries_view(v@);
    match find_key(v, key) {
        Some(i) => {
            v.remove(i);
            proof {
                assert(entries_view(v@) =~= old_view.remove(i as int));
                let n = entries_view(v@);
                assert forall|a: int, b: int|
                    0 <= a < n.len() && 0 <= b < n.len() && a != b implies n[a].0 != n[b].0 by {
                    let a2 = if a < i { a } else { a + 1 };
                    let b2 = if b < i { b } else { b + 1 };
                    assert(n[a] == old_view[a2] && n[b] == old_view[b2]);
                }
            }
        },
        None => {},
    }
}

/// The value stored under `key`, if any.
pub fn get_key<'a, T: View>(v: &'a Vec<(String, T)>, key: &str) -> (r: Option<&'a T>)
    requires
        distinct_keys(entries_view(v@)),
    ensures
        match r {
            Some(x) => value_of(entries_view(v@), key@) == Some(x@),
            None => value_of(entries_view(v@), key@) is None,
        },
{
    match find_key(v, key) {
        Some(i) => Some(&v[i].1),
        None => None,
    }
}

/// A read after a write: the value stored under a key is the one found there.
pub proof fn law_value_after_upsert<V>(v: Seq<(Seq<char>, V)>, k: Seq<char>, x: V)
    requires
        distinct_keys(v),
    ensures
        value_of(upserted(v, k, x), k) == Some(x),
        distinct_keys(upserted(v, k, x)),
{
    let u = upserted(v, k, x);
    match key_index(v, k) {
        Some(i) => {
            assert(0 <= i < v.len() && v[i].0 == k);
            assert(distinct_keys(u)) by {
                assert forall|a: int, b: int|
                    0 <= a < u.len() && 0 <= b < u.len() && a != b implies u[a].0 != u[b].0 by {
                    assert(u[a].0 == v[a].0 && u[b].0 == v[b].0);
                }
            }
            lemma_key_index_at(u, k, i);
        },
        None => {
            assert(distinct_keys(u)) by {
                assert forall|a: int, b: int|
                    0 <= a < u.len() && 0 <= b < u.len() && a != b implies u[a].0 != u[b].0 by {
                    if a < v.len() && b < v.len() {
                        assert(u[a] == v[a] && u[b] == v[b]);
                    } else if a < v.len() {
                        assert(u[a] == v[a]);
                    } else {
                        assert(u[b] == v[b]);
                    }
                }
            }
            lemma_key_index_at(u, k, v.len() as int);
        },
    }
}

/// Storing under one key changes the value under no other key.
pub proof fn law_upsert_keeps_others<V>(v: Seq<(Seq<char>, V)>, k: Seq<char>, x: V, other: Seq<char>)
    requires
        distinct_keys(v),
        other != k,
    ensures
        value_of(upserted(v, k, x), other) == value_of(v, other),
{
    law_value_after_upsert(v, k, x);
    let u = upserted(v, k, x);
    match key_index(v, other) {
        Some(j) => {
            assert(0 <= j < v.len() && v[j].0 == other);
            assert(u[j] == v[j]);
            lemma_key_index_at(u, other, j);
        },
        None => {
            if exists|i: int| 0 <= i < u.len() && u[i].0 == other {
                let i = choose|i: int| 0 <= i < u.len() && u[i].0 == other;
                if i < v.len() {
                    assert(v[i].0 == other);
                }
            }
        },
    }
}

/// After a removal nothing is stored under the key, and the other keys keep
/// their values.
pub proof fn law_removed<V>(v: Seq<(Seq<char>, V)>, k: Seq<char>, other: Seq<char>)
    requires
        distinct_keys(v),
    ensures
        value_of(removed(v, k), k) is None,
        other != k ==> value_of(removed(v, k), other) == value_of(v, other),
{
    let r = removed(v, k);
    match key_index(v, k) {
        Some(i) => {
            assert(0 <= i < v.len() && v[i].0 == k);
            if exists|j: int| 0 <= j < r.len() && r[j].0 == k {
                let j = choose|j: int| 0 <= j < r.len() && r[j].0 == k;
                let j2 = if j < i { j } else { j + 1 };
                assert(r[j] == v[j2]);
            }
            if other != k {
                assert(distinct_keys(r)) by {
                    assert forall|a: int, b: int|
                        0 <= a < r.len() && 0 <= b < r.len() && a != b implies r[a].0 != r[b].0 by {
                        let a2 = if a < i { a } else { a + 1 };
                        let b2 = if b < i { b } else { b + 1 };
                        assert(r[a] == v[a2] && r[b] == v[b2]);
                    }
                }
                match key_index(v, other) {
                    Some(j) => {
                        assert(0 <= j < v.len() && v[j].0 == other);
                        let j2 = if j < i { j } else { j - 1 };
                        assert(r[j2] == v[j]);
                        lemma_key_index_at(r, other, j2);
                    },
                    None => {
                        if exists|j: int| 0 <= j < r.len() && r[j].0 == other {
                            let j = choose|j: int| 0 <= j < r.len() && r[j].0 == other;
                            let j2 = if j < i { j } else { j + 1 };
                            assert(r[j] == v[j2]);
                        }
                    },
                }
            }
        },
        None => {},
    }
}

/// The entries after the operations `ops`, in order: `(k, Some(x))` stores
/// `x` under `k`, `(k, None)` removes the entry under `k`.
pub open spec fn applied<V>(v: Seq<(Seq<char>, V)>, ops: Seq<(Seq<char>, Option<V>)>) -> Seq<
    (Seq<char>, V),
>
    decreases ops.len(),
{
    if ops.len() == 0 {
        v
    } else {
        let prev = applied(v, ops.drop_last());
        match ops.last().1 {
            Some(x) => upserted(prev, ops.last().0, x),
            None => removed(prev, ops.last().0),
        }
    }
}

/// The last of `ops` on key `k`, if any.
pub open spec fn last_op<V>(ops: Seq<(Seq<char>, Option<V>)>, k: Seq<char>) -> Option<Option<V>>
    decreases ops.len(),
{
    if ops.len() == 0 {
        None
    } else if ops.last().0 == k {
        Some(ops.last().1)
    } else {
        last_op(ops.drop_last(), k)
    }
}

/// Over any history of stores and removals: the value under a key is the
/// one its last operation left (none after a removal), and the value it had
/// before where no operation touched it; no key names two entries.
pub proof fn law_history<V>(v: Seq<(Seq<char>, V)>, ops: Seq<(Seq<char>, Option<V>)>, k: Seq<char>)
    requires
        distinct_keys(v),
    ensures
        distinct_keys(applied(v, ops)),
        value_of(applied(v, ops), k) == match last_op(ops, k) {
            Some(o) => o,
            None => value_of(v, k),
        },
    decreases ops.len(),
{
    if ops.len() > 0 {
        let prev = applied(v, ops.drop_last());
        law_history(v, ops.drop_last(), k);
        let key = ops.last().0;
        match ops.last().1 {
            Some(x) => {
                law_value_after_upsert(prev, key, x);
                if k != key {
                    law_upsert_keeps_others(prev, key, x, k);
                }
            },
            None => {
                law_removed(prev, key, k);
                lemma_removed_distinct(prev, key);
            },
        }
    }
}

proof fn lemma_removed_distinct<V>(v: Seq<(Seq<char>, V)>, k: Seq<char>)
    requires
        distinct_keys(v),
    ensures
        distinct_keys(removed(v, k)),
{
    match key_index(v, k) {
        Some(i) => {
            let r = removed(v, k);
            assert forall|a: int, b: int|
                0 <= a < r.len() && 0 <= b < r.len() && a != b implies r[a].0 != r[b].0 by {
                let a2 = if a < i { a } else { a + 1 };
                let b2 = if b < i { b } else { b + 1 };
                assert(r[a] == v[a2] && r[b] == v[b2]);
            }
        },
        None => {},
    }
}

/// Over any history of stores and removals from no entries: the entries
/// are exactly the live ones (those whose key's last operation stored them),
/// each once, with the value last stored.
pub proof fn law_history_live<V>(ops: Seq<(Seq<char>, Option<V>)>)
    ensures
        distinct_keys(applied(Seq::empty(), ops)),
        forall|i: int|
            0 <= i < applied(Seq::empty(), ops).len() ==> last_op(
                ops,
                #[trigger] applied(Seq::empty(), ops)[i].0,
            ) == Some(Some(applied(Seq::empty(), ops)[i].1)),
        forall|k: Seq<char>|
            #[trigger] last_op(ops, k) is Some && last_op(ops, k)->0 is Some ==> exists|i: int|
                0 <= i < applied(Seq::empty(), ops).len() && applied(Seq::empty(), ops)[i] == (
                    k,
                    last_op(ops, k)->0->0,
                ),
{
    let e = Seq::<(Seq<char>, V)>::empty();
    let v = applied(e, ops);
    law_history(e, ops, Seq::empty());
    assert forall|i: int| 0 <= i < v.len() implies last_op(ops, #[trigger] v[i].0) == Some(
        Some(v[i].1),
    ) by {
        law_history(e, ops, v[i].0);
        lemma_key_index_at(v, v[i].0, i);
    }
    assert forall|k: Seq<char>| #[trigger] last_op(ops, k) is Some && last_op(ops, k)->0 is Some implies exists|i: int|
        0 <= i < v.len() && v[i] == (k, last_op(ops, k)->0->0) by {
        law_history(e, ops, k);
        let i = key_index(v, k)->0;
        assert(v[i] == (k, last_op(ops, k)->0->0));
    }
}

} // verus!
