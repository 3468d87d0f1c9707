//! A trie keyed by DNS labels.
//!
//! Its model is a map from label paths to the value stored at the node that
//! path leads to: a path is in the map's domain exactly when a node exists for
//! it, and the node holds `Some(value)` or `None`.
use vstd::prelude::*;

verus! {

/// A label path as a sequence of labels.
pub type LabelPath = Seq<Seq<char>>;

/// The model of a trie: each existing node's path, mapped to its value.
pub type TrieModel<V> = Map<LabelPath, Option<V>>;

struct TrieNode<V> {
    value: Option<V>,
    children: Vec<(String, TrieNode<V>)>,
}

pub struct Trie<V> {
    root: TrieNode<V>,
}

spec fn keys_of<V>(children: Seq<(String, TrieNode<V>)>) -> Seq<Seq<char>> {
    children.map_values(|c: (String, TrieNode<V>)| c.0@)
}

/// `i` is the first position of `key` in `keys`.
spec fn first_match(keys: Seq<Seq<char>>, key: Seq<char>, i: int) -> bool {
    &&& 0 <= i < keys.len()
    &&& keys[i] == key
    &&& forall|j: int| 0 <= j < i ==> keys[j] != key
}

spec fn key_index(keys: Seq<Seq<char>>, key: Seq<char>) -> Option<int> {
    if exists|i: int| first_match(keys, key, i) {
        Some(choose|i: int| first_match(keys, key, i))
    } else {
        None
    }
}

spec fn child_index<V>(children: Seq<(String, TrieNode<V>)>, key: Seq<char>) -> Option<int> {
    key_index(keys_of(children), key)
}

proof fn lemma_key_index_found(keys: Seq<Seq<char>>, key: Seq<char>, i: int)
    requires
        first_match(keys, key, i),
    ensures
        key_index(keys, key) == Some(i),
{
    let c = choose|i: int| first_match(keys, key, i);
    assert(first_match(keys, key, c));
    if c < i {
        assert(keys[c] != key);
    } else if i < c {
        assert(keys[i] != key);
    }
}

proof fn lemma_key_index_some(keys: Seq<Seq<char>>, key: Seq<char>)
    ensures
        key_index(keys, key) matches Some(i) ==> first_match(keys, key, i),
{
}

proof fn lemma_key_index_absent(keys: Seq<Seq<char>>, key: Seq<char>)
    requires
        forall|j: int| 0 <= j < keys.len() ==> keys[j] != key,
    ensures
        key_index(keys, key) is None,
{
    if exists|i: int| first_match(keys, key, i) {
        let c = choose|i: int| first_match(keys, key, i);
        assert(keys[c] == key);
    }
}

/// Appending a key leaves the position of every other key as it was, and
/// puts a key that was absent at the end.
proof fn lemma_key_index_push(keys: Seq<Seq<char>>, k: Seq<char>, key: Seq<char>)
    requires
        key_index(keys, k) is None,
    ensures
        key_index(keys.push(k), key) == (if key == k {
            Some(keys.len() as int)
        } else {
            key_index(keys, key)
        }),
{
    let nk = keys.push(k);
    if !(exists|i: int| first_match(keys, k, i)) {
        assert forall|j: int| 0 <= j < keys.len() implies keys[j] != k by {
            if keys[j] == k {
                if exists|i: int| 0 <= i < j && keys[i] == k {
                    let i0 = choose|i: int| 0 <= i < j && keys[i] == k;
                    lemma_first_occurrence(keys, k, i0);
                } else {
                    assert(first_match(keys, k, j));
                }
            }
        }
    }
    if key == k {
        assert(first_match(nk, key, keys.len() as int));
        lemma_key_index_found(nk, key, keys.len() as int);
    } else {
        match key_index(keys, key) {
            Some(i) => {
                assert(first_match(keys, key, i));
                assert(first_match(nk, key, i));
                lemma_key_index_found(nk, key, i);
            },
            None => {
                assert forall|j: int| 0 <= j < nk.len() implies nk[j] != key by {
                    if j < keys.len() && keys[j] == key {
                        lemma_first_occurrence(keys, key, j);
                        let i0 = choose|i: int| first_match(keys, key, i);
                        lemma_key_index_found(keys, key, i0);
                    }
                }
                lemma_key_index_absent(nk, key);
            },
        }
    }
}

/// Any occurrence of a key implies a first occurrence.
proof fn lemma_first_occurrence(keys: Seq<Seq<char>>, key: Seq<char>, j: int)
    requires
        0 <= j < keys.len(),
        keys[j] == key,
    ensures
        exists|i: int| first_match(keys, key, i),
    decreases j,
{
    if exists|i: int| 0 <= i < j && keys[i] == key {
        let i0 = choose|i: int| 0 <= i < j && keys[i] == key;
        lemma_first_occurrence(keys, key, i0);
    } else {
        assert(first_match(keys, key, j));
    }
}

/// The node reached from `node` along `path`: `None` when there is none,
/// `Some(value)` with the node's value otherwise.
spec fn node_at<V>(node: TrieNode<V>, path: LabelPath) -> Option<Option<V>>
    decreases path.len(),
{
    if path.len() == 0 {
        Some(node.value)
    } else {
        match child_index(node.children@, path[0]) {
            Some(j) => node_at(node.children@[j].1, path.drop_first()),
            None => None,
        }
    }
}

spec fn node_view<V>(node: TrieNode<V>) -> TrieModel<V> {
    Map::new(|p: LabelPath| node_at(node, p) is Some, |p: LabelPath| node_at(node, p)->0)
}

/// `p` is a prefix of `q`.
pub open spec fn is_prefix(p: LabelPath, q: LabelPath) -> bool {
    p.len() <= q.len() && q.take(p.len() as int) == p
}

/// The model of an empty trie: only the root node, without a value.
pub open spec fn empty_model<V>() -> TrieModel<V> {
    Map::empty().insert(Seq::empty(), None)
}

/// The model after inserting `value` at `path`: every prefix of `path` gets a
/// node (without a value where none existed) and `path` holds `value`.
pub open spec fn inserted<V>(m: TrieModel<V>, path: LabelPath, value: V) -> TrieModel<V> {
    Map::new(
        |q: LabelPath| m.dom().contains(q) || is_prefix(q, path),
        |q: LabelPath|
            if q == path {
                Some(value)
            } else if m.dom().contains(q) {
                m[q]
            } else {
                None
            },
    )
}

/// The value stored at `path`, if a node exists there and holds one.
pub open spec fn value_at<V>(m: TrieModel<V>, path: LabelPath) -> Option<V> {
    if m.dom().contains(path) {
        m[path]
    } else {
        None
    }
}

/// `k` is the depth that a walk along `path` reaches: the nodes for the
/// first `j` labels exist for every `j <= k`, and the next one does not.
pub open spec fn is_closest_depth<V>(m: TrieModel<V>, path: LabelPath, k: int) -> bool {
    &&& 0 <= k <= path.len()
    &&& forall|j: int| 0 <= j <= k ==> #[trigger] m.dom().contains(path.take(j))
    &&& k < path.len() ==> !m.dom().contains(path.take(k + 1))
}

/// A node's model holds the root path and is closed under prefixes.
pub open spec fn prefix_closed<V>(m: TrieModel<V>) -> bool {
    &&& m.dom().contains(Seq::empty())
    &&& forall|p: LabelPath, j: int|
        #![trigger m.dom().contains(p), p.take(j)]
        m.dom().contains(p) && 0 <= j <= p.len() ==> m.dom().contains(p.take(j))
}

/// `r` refers to the value that `o` holds, or is `None` with it.
pub open spec fn ref_matches<V>(r: Option<&V>, o: Option<V>) -> bool {
    match r {
        Some(v) => o == Some(*v),
        None => o is None,
    }
}

proof fn lemma_child_step<V>(node: TrieNode<V>, key: Seq<char>, q: LabelPath)
    ensures
        node_at(node, seq![key] + q) == (match child_index(node.children@, key) {
            Some(j) => node_at(node.children@[j].1, q),
            None => None,
        }),
{
    let p = seq![key] + q;
    assert(p[0] == key);
    assert(p.drop_first() =~= q);
}

proof fn lemma_split_path(p: LabelPath)
    requires
        p.len() > 0,
    ensures
        p == seq![p[0]] + p.drop_first(),
{
    assert(p =~= seq![p[0]] + p.drop_first());
}

proof fn lemma_node_prefix_closed<V>(node: TrieNode<V>, p: LabelPath, j: int)
    requires
        node_at(node, p) is Some,
        0 <= j <= p.len(),
    ensures
        node_at(node, p.take(j)) is Some,
    decreases p.len(),
{
    if j == 0 {
        assert(p.take(0).len() == 0);
    } else {
        let c = child_index(node.children@, p[0]).unwrap();
        let t = p.take(j);
        assert(t[0] == p[0]);
        assert(t.drop_first() =~= p.drop_first().take(j - 1));
        lemma_node_prefix_closed(node.children@[c].1, p.drop_first(), j - 1);
    }
}

proof fn lemma_view_prefix_closed<V>(node: TrieNode<V>)
    ensures
        prefix_closed(node_view(node)),
{
    assert(node_view(node).dom().contains(Seq::<Seq<char>>::empty()));
    assert forall|p: LabelPath, j: int|
        #![trigger node_view(node).dom().contains(p), p.take(j)]
        node_view(node).dom().contains(p) && 0 <= j <= p.len() implies node_view(
        node,
    ).dom().contains(p.take(j)) by {
        lemma_node_prefix_closed(node, p, j);
    }
}

/// Prefix relations of two non-empty paths, one label at a time.
proof fn lemma_prefix_cons(q: LabelPath, s: LabelPath)
    requires
        q.len() > 0,
        s.len() > 0,
    ensures
        is_prefix(q, s) == (q[0] == s[0] && is_prefix(q.drop_first(), s.drop_first())),
        (q == s) == (q[0] == s[0] && q.drop_first() == s.drop_first()),
{
    if is_prefix(q, s) {
        assert(s.take(q.len() as int)[0] == s[0]);
        assert(s.drop_first().take(q.drop_first().len() as int) =~= s.take(
            q.len() as int,
        ).drop_first());
    }
    if q[0] == s[0] && is_prefix(q.drop_first(), s.drop_first()) {
        assert forall|i: int| 0 <= i < q.len() implies #[trigger] s.take(q.len() as int)[i]
            == q[i] by {
            if i > 0 {
                assert(s.drop_first().take(q.drop_first().len() as int)[i - 1] == q.drop_first()[i
                    - 1]);
            }
        }
        assert(s.take(q.len() as int) =~= q);
    }
    if q[0] == s[0] && q.drop_first() == s.drop_first() {
        assert forall|i: int| 0 <= i < q.len() implies #[trigger] q[i] == s[i] by {
            if i > 0 {
                assert(q.drop_first()[i - 1] == s.drop_first()[i - 1]);
            }
        }
        assert(q =~= s);
    }
}

/// The step of an insertion below an existing child.
proof fn lemma_insert_below_child<V>(
    old_node: TrieNode<V>,
    new_node: TrieNode<V>,
    j: int,
    s: LabelPath,
    value: V,
)
    requires
        s.len() > 0,
        child_index(old_node.children@, s[0]) == Some(j),
        new_node.value == old_node.value,
        new_node.children@.len() == old_node.children@.len(),
        new_node.children@[j].0 == old_node.children@[j].0,
        forall|x: int|
            0 <= x < old_node.children@.len() && x != j ==> new_node.children@[x]
                == old_node.children@[x],
        node_view(new_node.children@[j].1) == inserted(
            node_view(old_node.children@[j].1),
            s.drop_first(),
            value,
        ),
    ensures
        node_view(new_node) == inserted(node_view(old_node), s, value),
{
    let m = node_view(old_node);
    let e = inserted(m, s, value);
    assert(keys_of(new_node.children@) =~= keys_of(old_node.children@));
    assert forall|q: LabelPath| #[trigger]
        node_at(new_node, q) == (if e.dom().contains(q) {
            Some(e[q])
        } else {
            None
        }) by {
        if q.len() == 0 {
            assert(m.dom().contains(q));
            assert(node_at(new_node, q) == (if e.dom().contains(q) {
                Some(e[q])
            } else {
                None
            }));
        } else {
            let r = q.drop_first();
            lemma_split_path(q);
            lemma_child_step(new_node, q[0], r);
            lemma_child_step(old_node, q[0], r);
            lemma_prefix_cons(q, s);
            lemma_key_index_some(keys_of(old_node.children@), q[0]);
            lemma_key_index_some(keys_of(old_node.children@), s[0]);
            let ci = child_index(old_node.children@, q[0]);
            assert(child_index(new_node.children@, q[0]) == ci);
            match ci {
                Some(c) => {
                    if c == j {
                        assert(q[0] == s[0]);
                        let cv = node_view(old_node.children@[j].1);
                        let nv = node_view(new_node.children@[j].1);
                        assert(node_at(new_node, q) == node_at(new_node.children@[j].1, r));
                        assert(m.dom().contains(q) == cv.dom().contains(r));
                        assert(nv.dom().contains(r) == (node_at(new_node.children@[j].1, r) is Some));
                        assert(e.dom().contains(q) == nv.dom().contains(r));
                        if e.dom().contains(q) {
                            assert(e[q] == nv[r]);
                        }
                    } else {
                        assert(q[0] != s[0]);
                        assert(node_at(new_node, q) == node_at(old_node, q));
                    }
                },
                None => {
                    assert(q[0] != s[0]);
                },
            }
            assert(node_at(new_node, q) == (if e.dom().contains(q) {
                Some(e[q])
            } else {
                None
            }));
        }
    }
    assert(node_view(new_node) =~= e);
}

/// The step of an insertion that adds a new child.
proof fn lemma_insert_new_child<V>(
    old_node: TrieNode<V>,
    new_node: TrieNode<V>,
    s: LabelPath,
    value: V,
)
    requires
        s.len() > 0,
        child_index(old_node.children@, s[0]) is None,
        new_node.value == old_node.value,
        new_node.children@.len() == old_node.children@.len() + 1,
        new_node.children@.drop_last() == old_node.children@,
        new_node.children@.last().0@ == s[0],
        node_view(new_node.children@.last().1) == inserted(empty_model::<V>(), s.drop_first(), value),
    ensures
        node_view(new_node) == inserted(node_view(old_node), s, value),
{
    let m = node_view(old_node);
    let e = inserted(m, s, value);
    assert(keys_of(new_node.children@) =~= keys_of(old_node.children@).push(s[0]));
    assert forall|q: LabelPath| #[trigger]
        node_at(new_node, q) == (if e.dom().contains(q) {
            Some(e[q])
        } else {
            None
        }) by {
        if q.len() == 0 {
            assert(m.dom().contains(q));
        } else {
            lemma_split_path(q);
            lemma_key_index_push(keys_of(old_node.children@), s[0], q[0]);
            lemma_child_step(new_node, q[0], q.drop_first());
            lemma_child_step(old_node, q[0], q.drop_first());
            lemma_prefix_cons(q, s);
            if q[0] != s[0] {
                match child_index(old_node.children@, q[0]) {
                    Some(c) => {
                        lemma_key_index_some(keys_of(old_node.children@), q[0]);
                        assert(new_node.children@.drop_last()[c] == new_node.children@[c]);
                    },
                    None => {},
                }
            } else {
                let r = q.drop_first();
                let nv = node_view(new_node.children@.last().1);
                let ev = inserted(empty_model::<V>(), s.drop_first(), value);
                assert(child_index(new_node.children@, q[0]) == Some(old_node.children@.len() as int));
                assert(node_at(new_node, q) == node_at(new_node.children@.last().1, r));
                assert(!m.dom().contains(q));
                if r.len() == 0 {
                    assert(s.drop_first().take(0) =~= r);
                    assert(r =~= Seq::<Seq<char>>::empty());
                }
                assert(e.dom().contains(q) == ev.dom().contains(r));
                assert(nv.dom().contains(r) == (node_at(new_node.children@.last().1, r) is Some));
                if e.dom().contains(q) {
                    assert(e[q] == ev[r]);
                }
            }
            assert(node_at(new_node, q) == (if e.dom().contains(q) {
                Some(e[q])
            } else {
                None
            }));
        }
    }
    assert(node_view(new_node) =~= e);
}

proof fn lemma_insert_here<V>(old_node: TrieNode<V>, new_node: TrieNode<V>, s: LabelPath, value: V)
    requires
        s.len() == 0,
        new_node.value == Some(value),
        new_node.children == old_node.children,
    ensures
        node_view(new_node) == inserted(node_view(old_node), s, value),
{
    let m = node_view(old_node);
    let e = inserted(m, s, value);
    assert forall|q: LabelPath| #[trigger]
        node_at(new_node, q) == (if e.dom().contains(q) {
            Some(e[q])
        } else {
            None
        }) by {
        if q.len() == 0 {
            assert(q =~= s);
        } else {
            lemma_split_path(q);
            lemma_child_step(new_node, q[0], q.drop_first());
            lemma_child_step(old_node, q[0], q.drop_first());
            assert(!is_prefix(q, s));
        }
    }
    assert(node_view(new_node) =~= e);
}

/// Replacing the value of the node at the root of `old_node`.
proof fn lemma_set_here<V>(old_node: TrieNode<V>, new_node: TrieNode<V>)
    requires
        new_node.children == old_node.children,
    ensures
        node_view(new_node) == node_view(old_node).insert(Seq::empty(), new_node.value),
{
    let m = node_view(old_node).insert(Seq::empty(), new_node.value);
    assert forall|q: LabelPath| #[trigger]
        node_at(new_node, q) == (if m.dom().contains(q) {
            Some(m[q])
        } else {
            None
        }) by {
        if q.len() == 0 {
            assert(q =~= Seq::<Seq<char>>::empty());
        } else {
            lemma_split_path(q);
            lemma_child_step(new_node, q[0], q.drop_first());
            lemma_child_step(old_node, q[0], q.drop_first());
        }
    }
    assert(node_view(new_node) =~= m);
}

/// Replacing the value of an existing node below child `j`.
proof fn lemma_set_below_child<V>(
    old_node: TrieNode<V>,
    new_node: TrieNode<V>,
    j: int,
    s: LabelPath,
    x: Option<V>,
)
    requires
        s.len() > 0,
        child_index(old_node.children@, s[0]) == Some(j),
        new_node.value == old_node.value,
        new_node.children@.len() == old_node.children@.len(),
        new_node.children@[j].0 == old_node.children@[j].0,
        forall|y: int|
            0 <= y < old_node.children@.len() && y != j ==> new_node.children@[y]
                == old_node.children@[y],
        node_view(new_node.children@[j].1) == node_view(old_node.children@[j].1).insert(
            s.drop_first(),
            x,
        ),
    ensures
        node_view(new_node) == node_view(old_node).insert(s, x),
{
    let m = node_view(old_node);
    let e = m.insert(s, x);
    assert(keys_of(new_node.children@) =~= keys_of(old_node.children@));
    assert forall|q: LabelPath| #[trigger]
        node_at(new_node, q) == (if e.dom().contains(q) {
            Some(e[q])
        } else {
            None
        }) by {
        if q.len() == 0 {
            assert(m.dom().contains(q));
        } else {
            let r = q.drop_first();
            lemma_split_path(q);
            lemma_child_step(new_node, q[0], r);
            lemma_child_step(old_node, q[0], r);
            lemma_prefix_cons(q, s);
            lemma_key_index_some(keys_of(old_node.children@), q[0]);
            lemma_key_index_some(keys_of(old_node.children@), s[0]);
            let ci = child_index(old_node.children@, q[0]);
            assert(child_index(new_node.children@, q[0]) == ci);
            match ci {
                Some(c) => {
                    if c == j {
                        assert(q[0] == s[0]);
                        let cv = node_view(old_node.children@[j].1);
                        let nv = node_view(new_node.children@[j].1);
                        assert(node_at(new_node, q) == node_at(new_node.children@[j].1, r));
                        assert(m.dom().contains(q) == cv.dom().contains(r));
                        assert(nv.dom().contains(r) == (node_at(new_node.children@[j].1, r) is Some));
                        assert(e.dom().contains(q) == nv.dom().contains(r));
                        if e.dom().contains(q) {
                            assert(e[q] == nv[r]);
                        }
                    } else {
                        assert(q[0] != s[0]);
                        assert(node_at(new_node, q) == node_at(old_node, q));
                    }
                },
                None => {
                    assert(q[0] != s[0]);
                },
            }
            assert(node_at(new_node, q) == (if e.dom().contains(q) {
                Some(e[q])
            } else {
                None
            }));
        }
    }
    assert(node_view(new_node) =~= e);
}

proof fn lemma_set_here_auto<V>(old_node: TrieNode<V>)
    ensures
        forall|n: TrieNode<V>|
            n.children == old_node.children ==> #[trigger] node_view(n) == node_view(
                old_node,
            ).insert(Seq::empty(), n.value),
{
    assert forall|n: TrieNode<V>| n.children == old_node.children implies #[trigger] node_view(n)
        == node_view(old_node).insert(Seq::empty(), n.value) by {
        lemma_set_here(old_node, n);
    }
}

proof fn lemma_set_below_child_auto<V>(old_node: TrieNode<V>, j: int, s: LabelPath)
    requires
        s.len() > 0,
        child_index(old_node.children@, s[0]) == Some(j),
    ensures
        forall|n: TrieNode<V>, x: Option<V>|
            #![trigger node_view(n), node_view(old_node).insert(s, x)]
            n.value == old_node.value && n.children@.len() == old_node.children@.len()
                && n.children@[j].0 == old_node.children@[j].0 && (forall|y: int|
                0 <= y < old_node.children@.len() && y != j ==> n.children@[y]
                    == old_node.children@[y]) && node_view(n.children@[j].1) == node_view(
                old_node.children@[j].1,
            ).insert(s.drop_first(), x) ==> node_view(n) == node_view(old_node).insert(s, x),
{
    assert forall|n: TrieNode<V>, x: Option<V>|
        #![trigger node_view(n), node_view(old_node).insert(s, x)]
        n.value == old_node.value && n.children@.len() == old_node.children@.len()
            && n.children@[j].0 == old_node.children@[j].0 && (forall|y: int|
            0 <= y < old_node.children@.len() && y != j ==> n.children@[y]
                == old_node.children@[y]) && node_view(n.children@[j].1) == node_view(
            old_node.children@[j].1,
        ).insert(s.drop_first(), x) implies node_view(n) == node_view(old_node).insert(s, x) by {
        lemma_set_below_child(old_node, n, j, s, x);
    }
}

proof fn lemma_same_below_child_auto<V>(old_node: TrieNode<V>, j: int)
    ensures
        forall|n: TrieNode<V>|
            n.value == old_node.value && n.children@.len() == old_node.children@.len()
                && n.children@[j].0 == old_node.children@[j].0 && (forall|y: int|
                0 <= y < old_node.children@.len() && y != j ==> n.children@[y]
                    == old_node.children@[y]) && node_view(n.children@[j].1) == node_view(
                old_node.children@[j].1,
            ) ==> #[trigger] node_view(n) == node_view(old_node),
{
    assert forall|n: TrieNode<V>|
        n.value == old_node.value && n.children@.len() == old_node.children@.len()
            && n.children@[j].0 == old_node.children@[j].0 && (forall|y: int|
            0 <= y < old_node.children@.len() && y != j ==> n.children@[y]
                == old_node.children@[y]) && node_view(n.children@[j].1) == node_view(
            old_node.children@[j].1,
        ) implies #[trigger] node_view(n) == node_view(old_node) by {
        assert(keys_of(n.children@) =~= keys_of(old_node.children@));
        assert forall|q: LabelPath| #[trigger] node_at(n, q) == node_at(old_node, q) by {
            if q.len() > 0 {
                let r = q.drop_first();
                lemma_split_path(q);
                lemma_child_step(n, q[0], r);
                lemma_child_step(old_node, q[0], r);
                lemma_key_index_some(keys_of(old_node.children@), q[0]);
                let ci = child_index(old_node.children@, q[0]);
                assert(child_index(n.children@, q[0]) == ci);
                if ci == Some(j) {
                    let nv = node_view(n.children@[j].1);
                    let ov = node_view(old_node.children@[j].1);
                    assert(nv.dom().contains(r) == ov.dom().contains(r));
                    if nv.dom().contains(r) {
                        assert(nv[r] == ov[r]);
                    }
                }
            }
        }
        assert(node_view(n) =~= node_view(old_node));
    }
}

proof fn lemma_take_cons(s: LabelPath, j: int)
    requires
        0 <= j < s.len(),
    ensures
        s.take(j + 1) == seq![s[0]] + s.drop_first().take(j),
{
    assert(s.take(j + 1) =~= seq![s[0]] + s.drop_first().take(j));
}

impl<V> TrieNode<V> {
    fn empty() -> (n: TrieNode<V>)
        ensures
            node_view(n) == empty_model::<V>(),
    {
        let n = TrieNode { value: None, children: Vec::new() };
        proof {
            assert forall|p: LabelPath| #[trigger] node_at(n, p) == (if p.len() == 0 {
                Some(None::<V>)
            } else {
                None
            }) by {
                if p.len() > 0 {
                    assert(child_index(n.children@, p[0]) is None);
                }
            }
            assert forall|p: LabelPath| #[trigger] node_view(n).dom().contains(p)
                == empty_model::<V>().dom().contains(p) by {
                if p.len() == 0 {
                    assert(p =~= Seq::<Seq<char>>::empty());
                }
            }
            assert(node_view(n) =~= empty_model::<V>());
        }
        n
    }

    /// Index of the first child keyed by `key`.
    fn find_child(&self, key: &String) -> (r: Option<usize>)
        ensures
            match r {
                Some(j) => child_index(self.children@, key@) == Some(j as int),
                None => child_index(self.children@, key@) is None,
            },
    {
        let mut i: usize = 0;
        while i < self.children.len()
            invariant
                i <= self.children@.len(),
                forall|j: int| 0 <= j < i ==> keys_of(self.children@)[j] != key@,
            decreases self.children@.len() - i,
        {
            if self.children[i].0 == *key {
                proof {
                    assert(first_match(keys_of(self.children@), key@, i as int));
                    lemma_key_index_found(keys_of(self.children@), key@, i as int);
                }
                return Some(i);
            }
            i = i + 1;
        }
        proof {
            lemma_key_index_absent(keys_of(self.children@), key@);
        }
        None
    }


    fn insert_at(&mut self, path: &Vec<String>, i: usize, value: V)
        requires
            i <= path@.len(),
        ensures
            node_view(*final(self)) == inserted(
                node_view(*old(self)),
                path.deep_view().skip(i as int),
                value,
            ),
        decreases path@.len() - i,
    {
        let ghost old_node = *self;
        let ghost s = path.deep_view().skip(i as int);
        if i == path.len() {
            self.value = Some(value);
            proof {
                lemma_insert_here(old_node, *self, s, value);
            }
            return;
        }
        proof {
            assert(s.drop_first() =~= path.deep_view().skip(i + 1));
        }
        match self.find_child(&path[i]) {
            Some(j) => {
                self.children[j].1.insert_at(path, i + 1, value);
                proof {
                    lemma_insert_below_child(old_node, *self, j as int, s, value);
                }
            },
            None => {
                let mut child = TrieNode::empty();
                child.insert_at(path, i + 1, value);
                self.children.push((path[i].clone(), child));
                proof {
                    assert(self.children@.drop_last() =~= old_node.children@);
                    lemma_insert_new_child(old_node, *self, s, value);
                }
            },
        }
    }


    fn get_mut_at<'a>(&'a mut self, path: &Vec<String>, i: usize) -> (r: Option<&'a mut V>)
        requires
            i <= path@.len(),
        ensures
            (r is Some) == (value_at(node_view(*old(self)), path.deep_view().skip(i as int)) is Some),
            r is None ==> node_view(*final(self)) == node_view(*old(self)),
            r is Some ==> value_at(node_view(*old(self)), path.deep_view().skip(i as int)) == Some(
                *r->0,
            ),
            r is Some ==> node_view(*final(self)) == node_view(*old(self)).insert(
                path.deep_view().skip(i as int),
                Some(*final(r->0)),
            ),
        decreases path@.len() - i,
    {
        let ghost old_node = *self;
        let ghost s = path.deep_view().skip(i as int);
        if i == path.len() {
            proof {
                assert(s =~= Seq::<Seq<char>>::empty());
                lemma_set_here_auto(old_node);
            }
            return self.value.as_mut();
        }
        proof {
            assert(s.drop_first() =~= path.deep_view().skip(i + 1));
            lemma_split_path(s);
            lemma_child_step(old_node, s[0], s.drop_first());
        }
        match self.find_child(&path[i]) {
            Some(j) => {
                proof {
                    lemma_set_below_child_auto(old_node, j as int, s);
                    lemma_same_below_child_auto(old_node, j as int);
                }
                self.children[j].1.get_mut_at(path, i + 1)
            },
            None => None,
        }
    }


    fn closest_at<'a>(&'a self, path: &Vec<String>, i: usize) -> (r: (usize, Option<&'a V>))
        requires
            i <= path@.len(),
        ensures
            i <= r.0 <= path@.len(),
            is_closest_depth(node_view(*self), path.deep_view().skip(i as int), r.0 - i),
            ref_matches(
                r.1,
                node_view(*self)[path.deep_view().skip(i as int).take(r.0 - i)],
            ),
        decreases path@.len() - i,
    {
        let ghost s = path.deep_view().skip(i as int);
        let ghost m = node_view(*self);
        if i == path.len() {
            proof {
                assert forall|j: int| 0 <= j <= 0 implies #[trigger] m.dom().contains(s.take(j)) by {
                    assert(s.take(j).len() == 0);
                }
            }
            return (i, self.value.as_ref());
        }
        proof {
            assert(s.drop_first() =~= path.deep_view().skip(i + 1));
            lemma_take_cons(s, 0);
            assert(s.drop_first().take(0) =~= Seq::<Seq<char>>::empty());
            lemma_child_step(*self, s[0], s.drop_first().take(0));
        }
        match self.find_child(&path[i]) {
            Some(j) => {
                let r = self.children[j].1.closest_at(path, i + 1);
                proof {
                    let c = self.children@[j as int].1;
                    let k = r.0 - i;
                    let s1 = s.drop_first();
                    assert forall|x: int| 0 <= x <= k implies #[trigger] m.dom().contains(
                        s.take(x),
                    ) by {
                        if x == 0 {
                            assert(s.take(x).len() == 0);
                        } else {
                            lemma_take_cons(s, x - 1);
                            lemma_child_step(*self, s[0], s1.take(x - 1));
                            assert(node_view(c).dom().contains(s1.take(x - 1)));
                        }
                    }
                    if k < s.len() {
                        lemma_take_cons(s, k);
                        lemma_child_step(*self, s[0], s1.take(k - 1 + 1));
                    }
                    lemma_take_cons(s, k - 1);
                    lemma_child_step(*self, s[0], s1.take(k - 1));
                    assert(node_view(c).dom().contains(s1.take(k - 1)));
                    assert(m.dom().contains(s.take(k)));
                    assert(m[s.take(k)] == node_view(c)[s1.take(k - 1)]);
                }
                (r.0, r.1)
            },
            None => {
                proof {
                    assert forall|x: int| 0 <= x <= 0 implies #[trigger] m.dom().contains(
                        s.take(x),
                    ) by {
                        assert(s.take(x).len() == 0);
                    }
                }
                (i, self.value.as_ref())
            },
        }
    }

    fn get_from<'a>(&'a self, path: &Vec<String>, i: usize) -> (r: Option<&'a V>)
        requires
            i <= path@.len(),
        ensures
            ref_matches(r, value_at(node_view(*self), path.deep_view().skip(i as int))),
        decreases path@.len() - i,
    {
        let ghost s = path.deep_view().skip(i as int);
        if i == path.len() {
            assert(s.len() == 0);
            return self.value.as_ref();
        }
        proof {
            lemma_split_path(s);
        }
        match self.find_child(&path[i]) {
            Some(j) => {
                let r = self.children[j].1.get_from(path, i + 1);
                proof {
                    assert(s.drop_first() =~= path.deep_view().skip(i + 1));
                    lemma_child_step(*self, s[0], s.drop_first());
                }
                r
            },
            None => {
                proof {
                    lemma_child_step(*self, s[0], s.drop_first());
                }
                None
            },
        }
    }
}

impl<V> View for Trie<V> {
    type V = TrieModel<V>;

    closed spec fn view(&self) -> TrieModel<V> {
        node_view(self.root)
    }
}

impl<V> Trie<V> {
    /// An empty trie: only the root node, without a value.
    pub fn new() -> (t: Self)
        ensures
            t@ == empty_model::<V>(),
    {
        Trie { root: TrieNode::empty() }
    }

    /// Stores `value` at `path`, creating the nodes along the way.
    pub fn insert(&mut self, path: &Vec<String>, value: V)
        ensures
            final(self)@ == inserted(old(self)@, path.deep_view(), value),
    {
        proof {
            assert(path.deep_view().skip(0) =~= path.deep_view());
        }
        self.root.insert_at(path, 0, value);
    }

    /// A mutable reference to the value stored at `path`, if there is one.
    /// Writing through it changes that value and nothing else.
    pub fn get_mut(&mut self, path: &Vec<String>) -> (r: Option<&mut V>)
        ensures
            (r is Some) == (value_at(old(self)@, path.deep_view()) is Some),
            r is Some ==> value_at(old(self)@, path.deep_view()) == Some(*r->0),
            r is Some ==> final(self)@ == old(self)@.insert(path.deep_view(), Some(*final(r->0))),
            r is None ==> final(self)@ == old(self)@,
    {
        proof {
            assert(path.deep_view().skip(0) =~= path.deep_view());
        }
        self.root.get_mut_at(path, 0)
    }

    /// The value stored at `path`, if there is one.
    pub fn get(&self, path: &Vec<String>) -> (r: Option<&V>)
        ensures
            ref_matches(r, value_at(self@, path.deep_view())),
    {
        proof {
            assert(path.deep_view().skip(0) =~= path.deep_view());
        }
        self.root.get_from(path, 0)
    }

    /// Walks `path` as far as nodes exist, and returns the labels walked and
    /// the value of the node reached.
    pub fn find_closest_prefix(&self, path: &Vec<String>) -> (r: (Vec<String>, Option<&V>))
        ensures
            is_closest_depth(self@, path.deep_view(), r.0@.len() as int),
            r.0.deep_view() == path.deep_view().take(r.0@.len() as int),
            ref_matches(r.1, self@[path.deep_view().take(r.0@.len() as int)]),
    {
        proof {
            assert(path.deep_view().skip(0) =~= path.deep_view());
        }
        let (depth, value) = self.root.closest_at(path, 0);
        let mut walked: Vec<String> = Vec::new();
        let mut i: usize = 0;
        while i < depth
            invariant
                i <= depth <= path@.len(),
                walked.deep_view() == path.deep_view().take(i as int),
            decreases depth - i,
        {
            let ghost prev = walked.deep_view();
            walked.push(path[i].clone());
            proof {
                assert(walked.deep_view() =~= prev.push(path.deep_view()[i as int]));
                assert(path.deep_view().take(i + 1) =~= path.deep_view().take(i as int).push(
                    path.deep_view()[i as int],
                ));
            }
            i = i + 1;
        }
        (walked, value)
    }
}

impl<V> Default for Trie<V> {
    fn default() -> (t: Self)
        ensures
            t@ == empty_model::<V>(),
    {
        Self::new()
    }
}

/// Every trie holds a node for the empty path, and a node for every prefix
/// of a path that has one.
pub proof fn law_trie_prefix_closed<V>(t: &Trie<V>)
    ensures
        prefix_closed(t@),
{
    lemma_view_prefix_closed(t.root);
}

/// A read after a write: the value inserted at a path is the value found there.
pub proof fn law_get_after_insert<V>(m: TrieModel<V>, path: LabelPath, value: V)
    ensures
        value_at(inserted(m, path, value), path) == Some(value),
{
    assert(path.take(path.len() as int) =~= path);
}

/// An insertion changes the value stored at no other path.
pub proof fn law_insert_keeps_other_values<V>(
    m: TrieModel<V>,
    path: LabelPath,
    value: V,
    other: LabelPath,
)
    requires
        other != path,
    ensures
        value_at(inserted(m, path, value), other) == value_at(m, other),
{
}

/// An insertion removes no node.
pub proof fn law_insert_keeps_nodes<V>(m: TrieModel<V>, path: LabelPath, value: V, q: LabelPath)
    requires
        m.dom().contains(q),
    ensures
        inserted(m, path, value).dom().contains(q),
{
}

/// Inserting keeps the node set closed under prefixes.
pub proof fn law_insert_keeps_prefix_closed<V>(m: TrieModel<V>, path: LabelPath, value: V)
    requires
        prefix_closed(m),
    ensures
        prefix_closed(inserted(m, path, value)),
{
    let e = inserted(m, path, value);
    assert forall|p: LabelPath, j: int|
        #![trigger e.dom().contains(p), p.take(j)]
        e.dom().contains(p) && 0 <= j <= p.len() implies e.dom().contains(p.take(j)) by {
        if !m.dom().contains(p) {
            assert(path.take(p.take(j).len() as int) =~= p.take(j));
        }
    }
}

/// The depth a walk reaches is determined by the trie and the path.
pub proof fn law_closest_depth_unique<V>(m: TrieModel<V>, path: LabelPath, k1: int, k2: int)
    requires
        is_closest_depth(m, path, k1),
        is_closest_depth(m, path, k2),
    ensures
        k1 == k2,
{
    if k1 < k2 {
        assert(m.dom().contains(path.take(k1 + 1)));
    } else if k2 < k1 {
        assert(m.dom().contains(path.take(k2 + 1)));
    }
}

/// In a trie, the walk stops at the longest prefix of the path that has a
/// node: no longer prefix has one.
pub proof fn law_closest_is_longest<V>(m: TrieModel<V>, path: LabelPath, k: int, j: int)
    requires
        prefix_closed(m),
        is_closest_depth(m, path, k),
        k < j <= path.len(),
    ensures
        !m.dom().contains(path.take(j)),
{
    if m.dom().contains(path.take(j)) {
        let t = path.take(j);
        assert(t.take(k + 1) =~= path.take(k + 1));
        assert(m.dom().contains(t.take(k + 1)));
    }
}

/// After an insertion, a walk along the inserted path reaches its end.
pub proof fn law_closest_after_insert<V>(m: TrieModel<V>, path: LabelPath, value: V)
    ensures
        is_closest_depth(inserted(m, path, value), path, path.len() as int),
{
    let e = inserted(m, path, value);
    assert forall|j: int| 0 <= j <= path.len() implies #[trigger] e.dom().contains(path.take(j)) by {
        assert(path.take(path.take(j).len() as int) =~= path.take(j));
    }
}

/// The model of a trie built from `list`: every path inserted, in order,
/// with `value`.
pub open spec fn list_model<V>(list: Seq<LabelPath>, value: V) -> TrieModel<V>
    decreases list.len(),
{
    if list.len() == 0 {
        empty_model()
    } else {
        inserted(list_model(list.drop_last(), value), list.last(), value)
    }
}

/// The depth that a walk along `path` reaches in `m`, from depth `k` on.
pub open spec fn depth_from<V>(m: TrieModel<V>, path: LabelPath, k: int) -> int
    decreases path.len() - k,
{
    if 0 <= k < path.len() && m.dom().contains(path.take(k + 1)) {
        depth_from(m, path, k + 1)
    } else {
        k
    }
}

/// The depth that a walk along `path` reaches in `m`.
pub open spec fn closest_depth<V>(m: TrieModel<V>, path: LabelPath) -> int {
    depth_from(m, path, 0)
}

proof fn lemma_depth_from<V>(m: TrieModel<V>, path: LabelPath, k: int)
    requires
        0 <= k <= path.len(),
        forall|j: int| 0 <= j <= k ==> #[trigger] m.dom().contains(path.take(j)),
    ensures
        is_closest_depth(m, path, depth_from(m, path, k)),
    decreases path.len() - k,
{
    if k < path.len() && m.dom().contains(path.take(k + 1)) {
        assert forall|j: int| 0 <= j <= k + 1 implies #[trigger] m.dom().contains(path.take(j)) by {
        }
        lemma_depth_from(m, path, k + 1);
    }
}

/// In a trie, the walk along any path stops at `closest_depth`.
pub proof fn law_walk_reaches_closest_depth<V>(m: TrieModel<V>, path: LabelPath)
    requires
        prefix_closed(m),
    ensures
        is_closest_depth(m, path, closest_depth(m, path)),
{
    assert forall|j: int| 0 <= j <= 0 implies #[trigger] m.dom().contains(path.take(j)) by {
        assert(path.take(j) =~= Seq::<Seq<char>>::empty());
    }
    lemma_depth_from(m, path, 0);
}

/// A trie built from a list has its nodes closed under prefixes, holds
/// `value` at every path of the list, and holds no other value.
pub proof fn law_list_model<V>(list: Seq<LabelPath>, value: V)
    ensures
        prefix_closed(list_model(list, value)),
        forall|q: LabelPath| #[trigger]
            value_at(list_model(list, value), q) is Some ==> value_at(list_model(list, value), q)
                == Some(value),
        forall|i: int|
            0 <= i < list.len() ==> value_at(list_model(list, value), #[trigger] list[i]) == Some(
                value,
            ),
        forall|q: LabelPath| #[trigger]
            value_at(list_model(list, value), q) is Some ==> list.contains(q),
    decreases list.len(),
{
    if list.len() == 0 {
        let m = list_model(list, value);
        assert forall|p: LabelPath, j: int|
            #![trigger m.dom().contains(p), p.take(j)]
            m.dom().contains(p) && 0 <= j <= p.len() implies m.dom().contains(p.take(j)) by {
            assert(p.take(j) =~= p);
        }
    } else {
        let prev = list.drop_last();
        law_list_model(prev, value);
        let m = list_model(list, value);
        law_insert_keeps_prefix_closed(list_model(prev, value), list.last(), value);
        law_get_after_insert(list_model(prev, value), list.last(), value);
        assert forall|q: LabelPath| #[trigger] value_at(m, q) is Some implies value_at(m, q) == Some(
            value,
        ) && list.contains(q) by {
            if q != list.last() {
                law_insert_keeps_other_values(list_model(prev, value), list.last(), value, q);
                let i = choose|i: int| 0 <= i < prev.len() && prev[i] == q;
                assert(list[i] == q);
            } else {
                assert(list[list.len() - 1] == q);
            }
        }
        assert forall|i: int| 0 <= i < list.len() implies value_at(m, #[trigger] list[i]) == Some(
            value,
        ) by {
            if list[i] != list.last() {
                assert(prev[i] == list[i]);
                law_insert_keeps_other_values(list_model(prev, value), list.last(), value, list[i]);
            }
        }
    }
}

/// The model of a trie after the history `ops`, in order, from an empty
/// trie: `(path, value, true)` is `insert(path, value)`, and
/// `(path, value, false)` writes `value` through `get_mut(path)`, which
/// changes nothing where the path holds no value.
pub open spec fn history_model<V>(ops: Seq<(LabelPath, V, bool)>) -> TrieModel<V>
    decreases ops.len(),
{
    if ops.len() == 0 {
        empty_model()
    } else {
        let m = history_model(ops.drop_last());
        let (p, v, is_insert) = ops.last();
        if is_insert {
            inserted(m, p, v)
        } else if value_at(m, p) is Some {
            m.insert(p, Some(v))
        } else {
            m
        }
    }
}

/// Some step of `ops` inserts at `path`.
pub open spec fn ever_inserted<V>(ops: Seq<(LabelPath, V, bool)>, path: LabelPath) -> bool {
    exists|i: int| 0 <= i < ops.len() && ops[i].2 && #[trigger] ops[i].0 == path
}

/// The value last stored at `path` by `ops`: by an insertion, or by a write
/// made after the path was inserted.
pub open spec fn last_stored<V>(ops: Seq<(LabelPath, V, bool)>, path: LabelPath) -> Option<V>
    decreases ops.len(),
{
    if ops.len() == 0 {
        None
    } else if ops.last().0 == path && (ops.last().2 || ever_inserted(ops.drop_last(), path)) {
        Some(ops.last().1)
    } else {
        last_stored(ops.drop_last(), path)
    }
}

/// Over any history of insertions and writes from an empty trie: a path
/// holds the value last stored there, and a value exactly when some
/// insertion used it; the nodes are the empty path and the prefixes of the
/// inserted paths.
pub proof fn law_trie_history<V>(ops: Seq<(LabelPath, V, bool)>, q: LabelPath)
    ensures
        value_at(history_model(ops), q) == last_stored(ops, q),
        value_at(history_model(ops), q) is Some <==> ever_inserted(ops, q),
        history_model(ops).dom().contains(q) <==> (q.len() == 0 || exists|i: int|
            0 <= i < ops.len() && ops[i].2 && is_prefix(q, #[trigger] ops[i].0)),
    decreases ops.len(),
{
    if ops.len() > 0 {
        let prev = ops.drop_last();
        let m = history_model(prev);
        let (p, v, is_insert) = ops.last();
        law_trie_history(prev, q);
        law_trie_history(prev, p);
        assert(ops[ops.len() - 1] == ops.last());
        if ever_inserted(prev, q) {
            let i = choose|i: int| 0 <= i < prev.len() && prev[i].2 && #[trigger] prev[i].0 == q;
            assert(ops[i] == prev[i]);
        }
        if ever_inserted(ops, q) {
            let i = choose|i: int| 0 <= i < ops.len() && ops[i].2 && #[trigger] ops[i].0 == q;
            if i < prev.len() {
                assert(prev[i] == ops[i]);
            }
        }
        if exists|i: int| 0 <= i < prev.len() && prev[i].2 && is_prefix(q, #[trigger] prev[i].0) {
            let i = choose|i: int| 0 <= i < prev.len() && prev[i].2 && is_prefix(q, #[trigger] prev[i].0);
            assert(ops[i] == prev[i]);
        }
        if exists|i: int| 0 <= i < ops.len() && ops[i].2 && is_prefix(q, #[trigger] ops[i].0) {
            let i = choose|i: int| 0 <= i < ops.len() && ops[i].2 && is_prefix(q, #[trigger] ops[i].0);
            if i < prev.len() {
                assert(prev[i] == ops[i]);
            }
        }
        if is_insert {
            if q == p {
                law_get_after_insert(m, q, v);
            } else {
                law_insert_keeps_other_values(m, p, v, q);
            }
        } else if value_at(m, p) is Some {
            assert(m.dom().contains(p));
        }
    } else {
        if q.len() == 0 {
            assert(q =~= Seq::<Seq<char>>::empty());
        }
    }
}

/// Every node of a trie built by a history lies on a path that holds a
/// value, except the root: the nodes are exactly the empty path and the
/// prefixes of the paths holding values.
pub proof fn law_nodes_lead_to_values<V>(ops: Seq<(LabelPath, V, bool)>, q: LabelPath)
    ensures
        history_model(ops).dom().contains(q) <==> (q.len() == 0 || exists|p: LabelPath|
            value_at(history_model(ops), p) is Some && #[trigger] is_prefix(q, p)),
{
    law_trie_history(ops, q);
    if exists|i: int| 0 <= i < ops.len() && ops[i].2 && is_prefix(q, #[trigger] ops[i].0) {
        let i = choose|i: int| 0 <= i < ops.len() && ops[i].2 && is_prefix(q, #[trigger] ops[i].0);
        law_trie_history(ops, ops[i].0);
        assert(ever_inserted(ops, ops[i].0));
    }
    if exists|p: LabelPath| value_at(history_model(ops), p) is Some && #[trigger] is_prefix(q, p) {
        let p = choose|p: LabelPath| value_at(history_model(ops), p) is Some && #[trigger] is_prefix(q, p);
        law_trie_history(ops, p);
        let i = choose|i: int| 0 <= i < ops.len() && ops[i].2 && #[trigger] ops[i].0 == p;
        assert(is_prefix(q, ops[i].0));
    }
}

impl<V: Copy> Trie<V> {
    /// A trie holding `value` at every path of `list`.
    pub fn from_paths(list: &Vec<Vec<String>>, value: V) -> (t: Self)
        ensures
            t@ == list_model(list.deep_view(), value),
    {
        let mut t: Trie<V> = Trie::new();
        let mut i: usize = 0;
        while i < list.len()
            invariant
                i <= list@.len(),
                t@ == list_model(list.deep_view().take(i as int), value),
            decreases list@.len() - i,
        {
            t.insert(&list[i], value);
            proof {
                let l = list.deep_view().take(i + 1);
                assert(l.drop_last() =~= list.deep_view().take(i as int));
                assert(l.last() == list[i as int].deep_view());
            }
            i = i + 1;
        }
        proof {
            assert(list.deep_view().take(i as int) =~= list.deep_view());
        }
        t
    }
}

} // verus!
