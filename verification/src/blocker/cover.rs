//! Which entries of a list cover a name. An entry covers the names that end
//! with its labels: the name it writes itself and every name under it (the
//! `*.` wildcard of the lists). A list is stored as a trie of its entries with
//! their labels reversed (top-level label first), so that the entries that
//! cover a name lie along the walk of the name's reversed labels.
use crate::trie::{
    law_closest_depth_unique, law_list_model, law_trie_prefix_closed,
    law_walk_reaches_closest_depth, closest_depth, list_model, value_at, LabelPath, Trie,
    TrieModel,
};
use vstd::prelude::*;

verus! {

/// The last `k` labels of `path`.
pub open spec fn suffix(path: LabelPath, k: int) -> LabelPath {
    path.skip(path.len() - k)
}

/// The entry `e` covers `path`: `path` is `e` or a name under it.
pub open spec fn covers(e: LabelPath, path: LabelPath) -> bool {
    e.len() <= path.len() && suffix(path, e.len() as int) == e
}

/// The entries of a list with their labels reversed, as the trie stores them.
pub open spec fn reversed_entries(list: Seq<LabelPath>) -> Seq<LabelPath> {
    list.map_values(|e: LabelPath| e.reverse())
}

/// The model of the trie that stores the entries of `list`, each with `value`.
pub open spec fn entries_model<V>(list: Seq<LabelPath>, value: V) -> TrieModel<V> {
    list_model(reversed_entries(list), value)
}

/// The value under which a stored list holds the entry `e`.
pub open spec fn entry_value<V>(m: TrieModel<V>, e: LabelPath) -> Option<V> {
    value_at(m, e.reverse())
}

/// The number of labels of the longest entry of `m` that covers `path` and
/// has at most `n` labels.
pub open spec fn deepest_cover<V>(m: TrieModel<V>, path: LabelPath, n: nat) -> Option<nat>
    decreases n,
{
    if entry_value(m, suffix(path, n as int)) is Some {
        Some(n)
    } else if n == 0 {
        None
    } else {
        deepest_cover(m, path, (n - 1) as nat)
    }
}

/// The number of labels of the longest entry of `m` that covers `path`;
/// `None` when no entry covers it.
pub open spec fn covering_depth<V>(m: TrieModel<V>, path: LabelPath) -> Option<nat> {
    deepest_cover(m, path, path.len())
}

proof fn lemma_deepest_cover<V>(m: TrieModel<V>, path: LabelPath, n: nat)
    ensures
        match deepest_cover(m, path, n) {
            Some(d) => d <= n && entry_value(m, suffix(path, d as int)) is Some && forall|k: nat|
                d < k <= n ==> entry_value(m, #[trigger] suffix(path, k as int)) is None,
            None => forall|k: nat| k <= n ==> entry_value(m, #[trigger] suffix(path, k as int)) is None,
        },
    decreases n,
{
    if entry_value(m, suffix(path, n as int)) is None && n > 0 {
        lemma_deepest_cover(m, path, (n - 1) as nat);
    }
}

/// The reversed labels of a name, taken `k` at a time, are the reversed
/// labels of its last `k` labels.
proof fn lemma_reverse_take(path: LabelPath, k: int)
    requires
        0 <= k <= path.len(),
    ensures
        path.reverse().take(k) == suffix(path, k).reverse(),
{
    assert(path.reverse().take(k) =~= suffix(path, k).reverse());
}

proof fn lemma_reverse_reverse(e: LabelPath)
    ensures
        e.reverse().reverse() == e,
{
    assert(e.reverse().reverse() =~= e);
}

/// The labels of `v` in reverse order.
pub fn reversed_labels(v: &Vec<String>) -> (r: Vec<String>)
    ensures
        r.deep_view() == v.deep_view().reverse(),
{
    let mut r: Vec<String> = Vec::new();
    let mut i: usize = v.len();
    while i > 0
        invariant
            i <= v@.len(),
            r.deep_view() == v.deep_view().subrange(i as int, v@.len() as int).reverse(),
        decreases i,
    {
        i = i - 1;
        let ghost prev = r.deep_view();
        r.push(v[i].clone());
        proof {
            let sub = v.deep_view().subrange(i as int, v@.len() as int);
            let old_sub = v.deep_view().subrange(i + 1, v@.len() as int);
            assert(r.deep_view() =~= prev.push(v.deep_view()[i as int]));
            assert forall|k: int| 0 <= k < sub.len() implies #[trigger] sub.reverse()[k]
                == r.deep_view()[k] by {
                if k < old_sub.len() {
                    assert(old_sub.reverse()[k] == old_sub[old_sub.len() - 1 - k]);
                }
            }
            assert(r.deep_view() =~= sub.reverse());
        }
    }
    proof {
        assert(v.deep_view().subrange(0, v@.len() as int) =~= v.deep_view());
    }
    r
}

/// Every entry of `list` with its labels reversed.
pub fn reversed_list(list: &Vec<Vec<String>>) -> (r: Vec<Vec<String>>)
    ensures
        r.deep_view() == reversed_entries(list.deep_view()),
{
    let mut r: Vec<Vec<String>> = Vec::new();
    let mut i: usize = 0;
    while i < list.len()
        invariant
            i <= list@.len(),
            r.deep_view() == reversed_entries(list.deep_view()).take(i as int),
        decreases list@.len() - i,
    {
        let ghost prev = r.deep_view();
        let e = reversed_labels(&list[i]);
        r.push(e);
        proof {
            assert(r.deep_view() =~= prev.push(e.deep_view()));
            assert(r.deep_view() =~= reversed_entries(list.deep_view()).take(i + 1));
        }
        i = i + 1;
    }
    proof {
        assert(r.deep_view() =~= reversed_entries(list.deep_view()));
    }
    r
}

/// The first `k` labels of `path`.
pub fn path_prefix(path: &Vec<String>, k: usize) -> (r: Vec<String>)
    requires
        k <= path@.len(),
    ensures
        r.deep_view() == path.deep_view().take(k as int),
{
    let mut r: Vec<String> = Vec::new();
    let mut i: usize = 0;
    while i < k
        invariant
            i <= k <= path@.len(),
            r.deep_view() == path.deep_view().take(i as int),
        decreases k - i,
    {
        let ghost prev = r.deep_view();
        r.push(path[i].clone());
        proof {
            assert(r.deep_view() =~= prev.push(path.deep_view()[i as int]));
            assert(path.deep_view().take(i + 1) =~= path.deep_view().take(i as int).push(
                path.deep_view()[i as int],
            ));
        }
        i = i + 1;
    }
    r
}

/// The last `k` labels of `path`.
pub fn path_suffix(path: &Vec<String>, k: usize) -> (r: Vec<String>)
    requires
        k <= path@.len(),
    ensures
        r.deep_view() == suffix(path.deep_view(), k as int),
{
    let start = path.len() - k;
    let mut r: Vec<String> = Vec::new();
    let mut i: usize = start;
    while i < path.len()
        invariant
            start <= i <= path@.len(),
            start == path@.len() - k,
            r.deep_view() == path.deep_view().subrange(start as int, i as int),
        decreases path@.len() - i,
    {
        let ghost prev = r.deep_view();
        r.push(path[i].clone());
        proof {
            assert(r.deep_view() =~= prev.push(path.deep_view()[i as int]));
            assert(r.deep_view() =~= path.deep_view().subrange(start as int, i + 1));
        }
        i = i + 1;
    }
    proof {
        assert(r.deep_view() =~= suffix(path.deep_view(), k as int));
    }
    r
}

/// The longest entry of the stored list `trie` that covers `path`: its
/// number of labels and its value; `None` when no entry covers `path`.
pub fn covering_entry<'a, V>(trie: &'a Trie<V>, path: &Vec<String>) -> (r: Option<(usize, &'a V)>)
    ensures
        match r {
            Some((k, v)) => k <= path@.len() && covering_depth(trie@, path.deep_view()) == Some(k as nat)
                && entry_value(trie@, suffix(path.deep_view(), k as int)) == Some(*v),
            None => covering_depth(trie@, path.deep_view()) is None,
        },
{
    let ghost p = path.deep_view();
    let ghost m = trie@;
    let rpath = reversed_labels(path);
    let (walked, _) = trie.find_closest_prefix(&rpath);
    let mut k: usize = walked.len();
    proof {
        assert(rpath.deep_view().len() == rpath@.len());
        let rp = rpath.deep_view();
        law_trie_prefix_closed(trie);
        law_walk_reaches_closest_depth(m, rp);
        law_closest_depth_unique(m, rp, k as int, closest_depth(m, rp));
        // No node, so no entry, lies deeper than the walk along the reversed name.
        assert forall|j: nat| k < j <= p.len() implies entry_value(m, #[trigger] suffix(p, j as int))
            is None by {
            lemma_reverse_take(p, j as int);
            if m.dom().contains(rp.take(j as int)) {
                assert(rp.take(j as int).take(k + 1) =~= rp.take(k + 1));
            }
        }
        lemma_cover_below(m, p, p.len(), k as nat);
    }
    loop
        invariant
            k <= p.len(),
            p == path.deep_view(),
            m == trie@,
            rpath.deep_view() == p.reverse(),
            rpath@.len() == p.len(),
            covering_depth(m, p) == deepest_cover(m, p, k as nat),
        decreases k,
    {
        let prefix = path_prefix(&rpath, k);
        proof {
            lemma_reverse_take(p, k as int);
        }
        match trie.get(&prefix) {
            Some(v) => {
                proof {
                    assert(path.deep_view().len() == path@.len());
                }
                return Some((k, v));
            },
            None => {
                if k == 0 {
                    return None;
                }
                k = k - 1;
            },
        }
    }
}

/// Where no entry has more than `k` labels among those of at most `n`, the
/// longest covering entry of at most `n` labels is that of at most `k`.
proof fn lemma_cover_below<V>(m: TrieModel<V>, path: LabelPath, n: nat, k: nat)
    requires
        k <= n,
        forall|j: nat| k < j <= n ==> entry_value(m, #[trigger] suffix(path, j as int)) is None,
    ensures
        deepest_cover(m, path, n) == deepest_cover(m, path, k),
    decreases n,
{
    if n > k {
        assert(entry_value(m, suffix(path, n as int)) is None);
        lemma_cover_below(m, path, (n - 1) as nat, k);
    }
}

/// A stored list holds exactly its entries, each with the list's value.
pub proof fn law_entries_model<V>(list: Seq<LabelPath>, value: V, e: LabelPath)
    ensures
        entry_value(entries_model(list, value), e) == (if list.contains(e) {
            Some(value)
        } else {
            None
        }),
{
    let r = reversed_entries(list);
    law_list_model(r, value);
    if list.contains(e) {
        let i = choose|i: int| 0 <= i < list.len() && list[i] == e;
        assert(r[i] == e.reverse());
    }
    if entry_value(entries_model(list, value), e) is Some {
        assert(r.contains(e.reverse()));
        let i = choose|i: int| 0 <= i < r.len() && r[i] == e.reverse();
        lemma_reverse_reverse(list[i]);
        lemma_reverse_reverse(e);
        assert(list[i] == e);
    }
}

/// The entry that decides for a list is its longest entry covering the
/// name: no entry of the list covers the name exactly when there is none,
/// and otherwise the list holds an entry of that many labels covering the
/// name, and no covering entry of the list is longer.
pub proof fn law_list_covers<V>(list: Seq<LabelPath>, value: V, path: LabelPath)
    ensures
        ({
            let m = entries_model(list, value);
            &&& covering_depth(m, path) is None <==> !exists|i: int|
                0 <= i < list.len() && covers(#[trigger] list[i], path)
            &&& covering_depth(m, path) matches Some(d) ==> {
                &&& d <= path.len()
                &&& list.contains(suffix(path, d as int))
                &&& covers(suffix(path, d as int), path)
                &&& entry_value(m, suffix(path, d as int)) == Some(value)
                &&& forall|i: int| 0 <= i < list.len() && covers(#[trigger] list[i], path) ==> list[i].len() <= d
            }
        }),
{
    let m = entries_model(list, value);
    lemma_deepest_cover(m, path, path.len());
    assert forall|i: int| 0 <= i < list.len() && covers(#[trigger] list[i], path) implies
        entry_value(m, suffix(path, list[i].len() as int)) is Some by {
        law_entries_model(list, value, list[i]);
    }
    match covering_depth(m, path) {
        Some(d) => {
            let e = suffix(path, d as int);
            law_entries_model(list, value, e);
            assert(e.len() == d);
            assert forall|i: int| 0 <= i < list.len() && covers(#[trigger] list[i], path) implies list[i].len() <= d by {
                if list[i].len() > d {
                    assert(entry_value(m, suffix(path, list[i].len() as int)) is Some);
                }
            }
            let i = choose|i: int| 0 <= i < list.len() && list[i] == e;
            assert(covers(list[i], path));
        },
        None => {
            assert forall|i: int| 0 <= i < list.len() implies !covers(#[trigger] list[i], path) by {
                if covers(list[i], path) {
                    assert(entry_value(m, suffix(path, list[i].len() as int)) is Some);
                }
            }
        },
    }
}

} // verus!
