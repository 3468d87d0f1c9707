//! The store of block and allow lists, and the lookup that decides between
//! them.
use crate::blocker::cover::{
    covering_depth, covering_entry, covers, entries_model, entry_value, law_entries_model,
    law_list_covers, path_suffix, reversed_list, suffix,
};
use crate::trie::{LabelPath, Trie, TrieModel};
use vstd::prelude::*;

verus! {

/// The kind of a list.
#[derive(Clone, Copy, Debug, PartialEq, Eq, Structural)]
pub enum ListType {
    Block,
    Allow,
}

/// The position of `url` among the lists.
pub open spec fn url_index(lists: Seq<(Seq<char>, TrieModel<ListType>)>, url: Seq<char>) -> Option<
    int,
> {
    if exists|i: int| 0 <= i < lists.len() && lists[i].0 == url {
        Some(choose|i: int| 0 <= i < lists.len() && lists[i].0 == url)
    } else {
        None
    }
}

/// No url names two lists.
pub open spec fn urls_distinct(lists: Seq<(Seq<char>, TrieModel<ListType>)>) -> bool {
    forall|i: int, j: int|
        0 <= i < lists.len() && 0 <= j < lists.len() && i != j ==> lists[i].0 != lists[j].0
}

/// What one list says of `path`: its url, the number of labels of its
/// longest entry covering `path` (0 when none covers it), and the type of
/// the list where an entry covers `path`.
pub type Candidate = (Seq<char>, int, Option<ListType>);

pub open spec fn candidate(list: (Seq<char>, TrieModel<ListType>), path: LabelPath) -> Candidate {
    match covering_depth(list.1, path) {
        Some(d) => (list.0, d as int, entry_value(list.1, suffix(path, d as int))),
        None => (list.0, 0, None),
    }
}

pub open spec fn candidates(lists: Seq<(Seq<char>, TrieModel<ListType>)>, path: LabelPath) -> Seq<
    Candidate,
> {
    lists.map_values(|l: (Seq<char>, TrieModel<ListType>)| candidate(l, path))
}

/// The deepest depth any candidate reaches (0 for none).
pub open spec fn max_depth(cs: Seq<Candidate>) -> int
    decreases cs.len(),
{
    if cs.len() == 0 {
        0
    } else {
        let d = max_depth(cs.drop_last());
        if cs.last().1 > d {
            cs.last().1
        } else {
            d
        }
    }
}

pub open spec fn has_status(cs: Seq<Candidate>, d: int, t: ListType) -> bool {
    exists|i: int| 0 <= i < cs.len() && cs[i].1 == d && cs[i].2 == Some(t)
}

/// Among the candidates at depth `d`: allow if any allows, else block if any
/// blocks, else nothing.
pub open spec fn best_status(cs: Seq<Candidate>, d: int) -> Option<ListType> {
    if has_status(cs, d, ListType::Allow) {
        Some(ListType::Allow)
    } else if has_status(cs, d, ListType::Block) {
        Some(ListType::Block)
    } else {
        None
    }
}

/// The urls of the candidates at depth `d` with status `s`, in order.
pub open spec fn deciders(cs: Seq<Candidate>, d: int, s: Option<ListType>) -> Seq<Seq<char>>
    decreases cs.len(),
{
    if cs.len() == 0 {
        Seq::empty()
    } else {
        let w = deciders(cs.drop_last(), d, s);
        if cs.last().1 == d && cs.last().2 == s {
            w.push(cs.last().0)
        } else {
            w
        }
    }
}

/// The answer of the lists for `path` (labels as written, leftmost first):
/// the longest entry covering `path` decides; on a tie allow lists win over
/// block lists; the urls are those of all lists whose longest covering entry
/// is that one and agrees with the decision, and the labels are that entry's.
pub open spec fn lookup_result(
    lists: Seq<(Seq<char>, TrieModel<ListType>)>,
    path: LabelPath,
) -> Option<(Seq<Seq<char>>, LabelPath, ListType)> {
    let cs = candidates(lists, path);
    let d = max_depth(cs);
    match best_status(cs, d) {
        Some(t) => Some((deciders(cs, d, Some(t)), suffix(path, d), t)),
        None => None,
    }
}

pub struct BlockerContext {
    tries: Vec<(String, Trie<ListType>)>,
}

impl View for BlockerContext {
    type V = Seq<(Seq<char>, TrieModel<ListType>)>;

    closed spec fn view(&self) -> Seq<(Seq<char>, TrieModel<ListType>)> {
        self.tries@.map_values(|e: (String, Trie<ListType>)| (e.0@, e.1@))
    }
}

impl BlockerContext {
    #[verifier::type_invariant]
    closed spec fn inv(&self) -> bool {
        urls_distinct(self@)
    }
}

proof fn lemma_max_depth_bounds(cs: Seq<Candidate>)
    ensures
        max_depth(cs) >= 0,
        forall|i: int| 0 <= i < cs.len() ==> #[trigger] cs[i].1 <= max_depth(cs),
    decreases cs.len(),
{
    if cs.len() > 0 {
        lemma_max_depth_bounds(cs.drop_last());
        assert forall|i: int| 0 <= i < cs.len() implies #[trigger] cs[i].1 <= max_depth(cs) by {
            if i < cs.len() - 1 {
                assert(cs.drop_last()[i] == cs[i]);
            }
        }
    }
}

proof fn lemma_deciders_none(cs: Seq<Candidate>, d: int, s: Option<ListType>)
    requires
        forall|i: int| 0 <= i < cs.len() ==> !(#[trigger] cs[i].1 == d && cs[i].2 == s),
    ensures
        deciders(cs, d, s) == Seq::<Seq<char>>::empty(),
    decreases cs.len(),
{
    if cs.len() > 0 {
        assert forall|i: int| 0 <= i < cs.drop_last().len() implies !(
        #[trigger] cs.drop_last()[i].1 == d && cs.drop_last()[i].2 == s) by {
            assert(cs.drop_last()[i] == cs[i]);
        }
        lemma_deciders_none(cs.drop_last(), d, s);
    }
}

/// The state of the lookup after some candidates: deepest depth, decision
/// there, and the urls behind the decision.
pub open spec fn lookup_state_ok(
    cs: Seq<Candidate>,
    d: int,
    s: Option<ListType>,
    urls: Seq<Seq<char>>,
) -> bool {
    &&& d == max_depth(cs)
    &&& s == best_status(cs, d)
    &&& s is Some ==> urls == deciders(cs, d, s)
}

/// How one more candidate changes the state of the lookup.
pub open spec fn combine(
    d: int,
    s: Option<ListType>,
    urls: Seq<Seq<char>>,
    c: Candidate,
) -> (int, Option<ListType>, Seq<Seq<char>>) {
    if c.1 > d {
        (c.1, c.2, seq![c.0])
    } else if c.1 < d {
        (d, s, urls)
    } else {
        match (s, c.2) {
            (None, None) => (d, s, urls),
            (None, Some(_)) => (d, c.2, seq![c.0]),
            (Some(ListType::Block), Some(ListType::Allow)) => (d, c.2, seq![c.0]),
            (Some(_), None) => (d, s, urls),
            (Some(ListType::Allow), Some(ListType::Block)) => (d, s, urls),
            (Some(_), Some(_)) => (d, s, urls.push(c.0)),
        }
    }
}

proof fn lemma_combine(cs: Seq<Candidate>, d: int, s: Option<ListType>, urls: Seq<Seq<char>>, c: Candidate)
    requires
        lookup_state_ok(cs, d, s, urls),
        c.1 >= 0,
    ensures
        ({
            let (d2, s2, u2) = combine(d, s, urls, c);
            lookup_state_ok(cs.push(c), d2, s2, u2)
        }),
{
    let cs2 = cs.push(c);
    assert(cs2.drop_last() =~= cs);
    assert(cs2.last() == c);
    lemma_max_depth_bounds(cs);
    let (d2, s2, u2) = combine(d, s, urls, c);
    assert forall|t: ListType| #[trigger] has_status(cs2, d2, t) == (has_status(cs, d2, t) || (c.1
        == d2 && c.2 == Some(t))) by {
        if has_status(cs2, d2, t) {
            let i = choose|i: int| 0 <= i < cs2.len() && cs2[i].1 == d2 && cs2[i].2 == Some(t);
            if i < cs.len() {
                assert(cs[i] == cs2[i]);
            }
        }
        if has_status(cs, d2, t) {
            let i = choose|i: int| 0 <= i < cs.len() && cs[i].1 == d2 && cs[i].2 == Some(t);
            assert(cs2[i] == cs[i]);
        }
        if c.1 == d2 && c.2 == Some(t) {
            assert(cs2[cs.len() as int] == c);
        }
    }
    if c.1 > d {
        assert forall|t: ListType| !has_status(cs, c.1, t) by {
            if has_status(cs, c.1, t) {
                let i = choose|i: int| 0 <= i < cs.len() && cs[i].1 == c.1 && cs[i].2 == Some(t);
                assert(cs[i].1 <= max_depth(cs));
            }
        }
        lemma_deciders_none(cs, c.1, c.2);
        assert(u2 =~= deciders(cs2, d2, s2));
    } else if c.1 == d {
        match (s, c.2) {
            (None, Some(t)) => {
                lemma_deciders_none(cs, d, c.2);
                assert(u2 =~= deciders(cs2, d2, s2));
            },
            (Some(ListType::Block), Some(ListType::Allow)) => {
                lemma_deciders_none(cs, d, c.2);
                assert(u2 =~= deciders(cs2, d2, s2));
            },
            _ => {},
        }
    }
}

impl BlockerContext {
    /// A context without lists.
    pub fn new() -> (c: Self)
        ensures
            c@ == Seq::<(Seq<char>, TrieModel<ListType>)>::empty(),
            urls_distinct(c@),
    {
        let c = BlockerContext { tries: Vec::new() };
        proof {
            assert(c@ =~= Seq::<(Seq<char>, TrieModel<ListType>)>::empty());
        }
        c
    }

    /// Stores the list of `url` (its entries' labels as written), replacing
    /// the one stored under that url before, if any.
    pub fn insert_list(&mut self, url: &str, list: &Vec<Vec<String>>, list_type: ListType)
        ensures
            final(self)@ == (match url_index(old(self)@, url@) {
                Some(i) => old(self)@.update(i, (url@, entries_model(list.deep_view(), list_type))),
                None => old(self)@.push((url@, entries_model(list.deep_view(), list_type))),
            }),
            urls_distinct(final(self)@),
    {
        proof {
            use_type_invariant(&*self);
        }
        let trie = Trie::from_paths(&reversed_list(list), list_type);
        let key = url.to_owned();
        let ghost entry = (url@, entries_model(list.deep_view(), list_type));
        let mut i: usize = 0;
        while i < self.tries.len()
            invariant
                i <= self.tries@.len(),
                key@ == url@,
                self@ == old(self)@,
                urls_distinct(self@),
                trie@ == entries_model(list.deep_view(), list_type),
                entry == (url@, entries_model(list.deep_view(), list_type)),
                forall|j: int| 0 <= j < i ==> #[trigger] self@[j].0 != url@,
            decreases self.tries@.len() - i,
        {
            if self.tries[i].0 == key {
                let ghost old_view = self@;
                proof {
                    assert(old_view[i as int].0 == url@);
                    assert(url_index(old_view, url@) == Some(i as int)) by {
                        let c = choose|c: int| 0 <= c < old_view.len() && old_view[c].0 == url@;
                        if c != i {
                            assert(old_view[c].0 != old_view[i as int].0);
                        }
                    }
                    assert(old_view.update(i as int, entry) =~= (self.tries@.update(
                        i as int,
                        (key, trie),
                    )).map_values(|e: (String, Trie<ListType>)| (e.0@, e.1@)));
                    assert(urls_distinct(old_view.update(i as int, entry)));
                }
                let mut tries: Vec<(String, Trie<ListType>)> = Vec::new();
                std::mem::swap(&mut tries, &mut self.tries);
                tries.set(i, (key, trie));
                self.tries = tries;
                return;
            }
            i = i + 1;
        }
        let ghost old_view = self@;
        proof {
            assert(url_index(old_view, url@) is None);
            assert(old_view.push(entry) =~= self.tries@.push((key, trie)).map_values(
                |e: (String, Trie<ListType>)| (e.0@, e.1@),
            ));
            assert(urls_distinct(old_view.push(entry)));
        }
        let mut tries: Vec<(String, Trie<ListType>)> = Vec::new();
        std::mem::swap(&mut tries, &mut self.tries);
        tries.push((key, trie));
        self.tries = tries;
    }

    /// What the lists say of `path` (labels as written): the urls of the
    /// lists behind the decision, the labels of the deciding entry, and the
    /// decision.
    pub fn lookup(&self, path: &Vec<String>) -> (r: Option<(Vec<String>, Vec<String>, ListType)>)
        ensures
            match r {
                Some(x) => lookup_result(self@, path.deep_view()) == Some(
                    (x.0.deep_view(), x.1.deep_view(), x.2),
                ),
                None => lookup_result(self@, path.deep_view()) is None,
            },
    {
        let ghost p = path.deep_view();
        let ghost cs = candidates(self@, p);
        let mut urls: Vec<String> = Vec::new();
        let mut depth: usize = 0;
        let mut status: Option<ListType> = None;
        let mut i: usize = 0;
        proof {
            assert(cs.take(0) =~= Seq::<Candidate>::empty());
            assert(!has_status(cs.take(0), 0, ListType::Allow));
            assert(!has_status(cs.take(0), 0, ListType::Block));
        }
        while i < self.tries.len()
            invariant
                i <= self.tries@.len(),
                p == path.deep_view(),
                cs == candidates(self@, p),
                cs.len() == self.tries@.len(),
                depth <= p.len(),
                lookup_state_ok(cs.take(i as int), depth as int, status, urls.deep_view()),
            decreases self.tries@.len() - i,
        {
            let (d, st): (usize, Option<ListType>) = match covering_entry(&self.tries[i].1, path) {
                Some((k, v)) => (k, Some(*v)),
                None => (0, None),
            };
            let ghost c = cs[i as int];
            proof {
                let m = self.tries@[i as int].1@;
                assert(self@[i as int] == (self.tries@[i as int].0@, m));
                assert(c == candidate(self@[i as int], p));
                assert(c == (self.tries@[i as int].0@, d as int, st));
                assert(cs.take(i + 1) =~= cs.take(i as int).push(c));
                lemma_combine(cs.take(i as int), depth as int, status, urls.deep_view(), c);
            }
            let ghost prev_urls = urls.deep_view();
            if d > depth {
                depth = d;
                status = st;
                urls = Vec::new();
                urls.push(self.tries[i].0.clone());
                proof {
                    assert(urls.deep_view() =~= seq![c.0]);
                }
            } else if d == depth {
                match (status, st) {
                    (None, Some(_)) | (Some(ListType::Block), Some(ListType::Allow)) => {
                        status = st;
                        urls = Vec::new();
                        urls.push(self.tries[i].0.clone());
                        proof {
                            assert(urls.deep_view() =~= seq![c.0]);
                        }
                    },
                    (Some(ListType::Allow), Some(ListType::Allow))
                    | (Some(ListType::Block), Some(ListType::Block)) => {
                        urls.push(self.tries[i].0.clone());
                        proof {
                            assert(urls.deep_view() =~= prev_urls.push(c.0));
                        }
                    },
                    _ => {},
                }
            }
            i = i + 1;
        }
        proof {
            assert(cs.take(i as int) =~= cs);
        }
        match status {
            Some(t) => Some((urls, path_suffix(path, depth), t)),
            None => None,
        }
    }
}

proof fn lemma_max_depth_reached(cs: Seq<Candidate>)
    requires
        max_depth(cs) > 0,
    ensures
        exists|j: int| 0 <= j < cs.len() && #[trigger] cs[j].1 == max_depth(cs),
    decreases cs.len(),
{
    if cs.last().1 > max_depth(cs.drop_last()) {
        assert(cs[cs.len() - 1] == cs.last());
    } else {
        lemma_max_depth_reached(cs.drop_last());
        let j = choose|j: int| 0 <= j < cs.drop_last().len() && #[trigger] cs.drop_last()[j].1
            == max_depth(cs.drop_last());
        assert(cs[j] == cs.drop_last()[j]);
    }
}

/// A read after a write: the only list, holding an entry, decides that
/// name with its own type, by its url, by that entry.
pub proof fn law_lookup_in_single_list(url: Seq<char>, list: Seq<LabelPath>, t: ListType, i: int)
    requires
        0 <= i < list.len(),
    ensures
        lookup_result(seq![(url, entries_model(list, t))], list[i]) == Some((seq![url], list[i], t)),
{
    let p = list[i];
    let m = entries_model(list, t);
    law_list_covers(list, t, p);
    assert(suffix(p, p.len() as int) =~= p);
    assert(covers(list[i], p));
    law_entries_model(list, t, p);
    assert(list.contains(p));
    assert(entry_value(m, suffix(p, p.len() as int)) is Some);
    assert(covering_depth(m, p) == Some(p.len()));
    let lists = seq![(url, m)];
    let cs = candidates(lists, p);
    assert(cs[0] == (url, p.len() as int, Some(t)));
    assert(cs.drop_last() =~= Seq::<Candidate>::empty());
    assert(cs.last() == cs[0]);
    assert(max_depth(cs.drop_last()) == 0);
    assert(max_depth(cs) == p.len());
    assert(deciders(cs.drop_last(), p.len() as int, Some(t)) == Seq::<Seq<char>>::empty());
    assert(has_status(cs, p.len() as int, t));
    if t == ListType::Block {
        assert(!has_status(cs, p.len() as int, ListType::Allow));
    }
    assert(deciders(cs, p.len() as int, Some(t)) =~= seq![url]);
}

/// The lists decide a name exactly when some entry of some list covers it:
/// the name itself or a name it is under is listed.
pub proof fn law_decided_iff_covered(lists: Seq<(Seq<char>, Seq<LabelPath>, ListType)>, path: LabelPath)
    ensures
        lookup_result(
            lists.map_values(|l: (Seq<char>, Seq<LabelPath>, ListType)| (l.0, entries_model(l.1, l.2))),
            path,
        ) is Some <==> exists|i: int, j: int|
            0 <= i < lists.len() && 0 <= j < lists[i].1.len() && covers(#[trigger] lists[i].1[j], path),
{
    let views = lists.map_values(|l: (Seq<char>, Seq<LabelPath>, ListType)| (l.0, entries_model(l.1, l.2)));
    let cs = candidates(views, path);
    let d = max_depth(cs);
    lemma_max_depth_bounds(cs);
    assert forall|i: int| 0 <= i < lists.len() implies (#[trigger] cs[i]).2 is Some <==> exists|j: int|
        0 <= j < lists[i].1.len() && covers(#[trigger] lists[i].1[j], path) by {
        law_list_covers(lists[i].1, lists[i].2, path);
        assert(views[i] == (lists[i].0, entries_model(lists[i].1, lists[i].2)));
    }
    if exists|i: int, j: int|
        0 <= i < lists.len() && 0 <= j < lists[i].1.len() && covers(#[trigger] lists[i].1[j], path) {
        let (i, j) = choose|i: int, j: int|
            0 <= i < lists.len() && 0 <= j < lists[i].1.len() && covers(#[trigger] lists[i].1[j], path);
        assert(cs[i].2 is Some);
        if d == 0 {
            assert(cs[i].1 == 0);
            assert(has_status(cs, d, cs[i].2->0));
        } else {
            lemma_max_depth_reached(cs);
            let k = choose|k: int| 0 <= k < cs.len() && #[trigger] cs[k].1 == d;
            law_list_covers(lists[k].1, lists[k].2, path);
            assert(views[k] == (lists[k].0, entries_model(lists[k].1, lists[k].2)));
            assert(cs[k].2 is Some);
            assert(has_status(cs, d, cs[k].2->0));
        }
        assert(has_status(cs, d, ListType::Allow) || has_status(cs, d, ListType::Block));
    }
    if lookup_result(views, path) is Some {
        let t = if has_status(cs, d, ListType::Allow) { ListType::Allow } else { ListType::Block };
        assert(has_status(cs, d, t));
        let k = choose|k: int| 0 <= k < cs.len() && cs[k].1 == d && cs[k].2 == Some(t);
        let j = choose|j: int| 0 <= j < lists[k].1.len() && covers(#[trigger] lists[k].1[j], path);
        assert(covers(lists[k].1[j], path));
    }
}

/// On a tie in depth, an allow list wins over block lists.
pub proof fn law_allow_wins_ties(lists: Seq<(Seq<char>, TrieModel<ListType>)>, path: LabelPath, i: int)
    requires
        0 <= i < lists.len(),
        candidates(lists, path)[i].1 == max_depth(candidates(lists, path)),
        candidates(lists, path)[i].2 == Some(ListType::Allow),
    ensures
        lookup_result(lists, path) matches Some(r) && r.2 == ListType::Allow,
{
    assert(has_status(candidates(lists, path), max_depth(candidates(lists, path)), ListType::Allow));
}

/// The longest covering entry decides: a list whose longest covering entry
/// is shorter than another's has no say, and the labels reported are those
/// of the longest covering entry.
pub proof fn law_longest_entry_decides(lists: Seq<(Seq<char>, TrieModel<ListType>)>, path: LabelPath)
    ensures
        lookup_result(lists, path) matches Some(r) ==> r.1 == suffix(
            path,
            max_depth(candidates(lists, path)),
        ),
        forall|i: int|
            0 <= i < lists.len() ==> #[trigger] candidates(lists, path)[i].1 <= max_depth(
                candidates(lists, path),
            ),
{
    lemma_max_depth_bounds(candidates(lists, path));
}

/// List `l` has an entry of `d` labels that covers `path`.
pub open spec fn covers_at(l: (Seq<char>, Seq<LabelPath>, ListType), path: LabelPath, d: int) -> bool {
    exists|j: int| 0 <= j < l.1.len() && covers(l.1[j], path) && #[trigger] l.1[j].len() == d
}

/// The longest entry of any list that covers `path` has `d` labels.
pub open spec fn longest_cover(lists: Seq<(Seq<char>, Seq<LabelPath>, ListType)>, path: LabelPath, d: int) -> bool {
    &&& exists|i: int| 0 <= i < lists.len() && #[trigger] covers_at(lists[i], path, d)
    &&& forall|i: int, j: int|
        0 <= i < lists.len() && 0 <= j < lists[i].1.len() && covers(#[trigger] lists[i].1[j], path)
            ==> lists[i].1[j].len() <= d
}

/// The stored form of lists given by url, entries and type.
pub open spec fn lists_view(lists: Seq<(Seq<char>, Seq<LabelPath>, ListType)>) -> Seq<
    (Seq<char>, TrieModel<ListType>),
> {
    lists.map_values(|l: (Seq<char>, Seq<LabelPath>, ListType)| (l.0, entries_model(l.1, l.2)))
}

/// The urls, in order, of the lists of type `t` with an entry of `d`
/// labels covering `path`.
pub open spec fn urls_covering(
    lists: Seq<(Seq<char>, Seq<LabelPath>, ListType)>,
    path: LabelPath,
    d: int,
    t: ListType,
) -> Seq<Seq<char>>
    decreases lists.len(),
{
    if lists.len() == 0 {
        Seq::empty()
    } else {
        let prev = urls_covering(lists.drop_last(), path, d, t);
        if lists.last().2 == t && covers_at(lists.last(), path, d) {
            prev.push(lists.last().0)
        } else {
            prev
        }
    }
}

proof fn lemma_max_depth_exact(cs: Seq<Candidate>, d: int, k: int)
    requires
        d >= 0,
        0 <= k < cs.len(),
        cs[k].1 == d,
        forall|i: int| 0 <= i < cs.len() ==> #[trigger] cs[i].1 <= d,
    ensures
        max_depth(cs) == d,
{
    lemma_max_depth_bounds(cs);
    if max_depth(cs) > 0 {
        lemma_max_depth_reached(cs);
    }
}

proof fn lemma_deciders_urls(
    cs: Seq<Candidate>,
    lists: Seq<(Seq<char>, Seq<LabelPath>, ListType)>,
    path: LabelPath,
    d: int,
    t: ListType,
)
    requires
        cs.len() == lists.len(),
        forall|i: int| 0 <= i < cs.len() ==> (#[trigger] cs[i]).0 == lists[i].0 && ((cs[i].1 == d
            && cs[i].2 == Some(t)) == (lists[i].2 == t && covers_at(lists[i], path, d))),
    ensures
        deciders(cs, d, Some(t)) == urls_covering(lists, path, d, t),
    decreases cs.len(),
{
    if cs.len() > 0 {
        let c2 = cs.drop_last();
        let l2 = lists.drop_last();
        assert forall|i: int| 0 <= i < c2.len() implies (#[trigger] c2[i]).0 == l2[i].0 && ((c2[i].1
            == d && c2[i].2 == Some(t)) == (l2[i].2 == t && covers_at(l2[i], path, d))) by {
            assert(c2[i] == cs[i] && l2[i] == lists[i]);
        }
        lemma_deciders_urls(c2, l2, path, d, t);
        assert(cs[cs.len() - 1] == cs.last());
        assert(lists[lists.len() - 1] == lists.last());
    }
}

/// The longest covering entry decides, whatever shorter entries say: where
/// the longest entry of any list covering `path` has `d` labels, the lookup
/// decides Allow if some allow list has a covering entry of `d` labels, and
/// Block otherwise, naming exactly the lists of that type with a covering
/// entry of `d` labels, and the last `d` labels of `path`.
pub proof fn law_longest_cover_decides(
    lists: Seq<(Seq<char>, Seq<LabelPath>, ListType)>,
    path: LabelPath,
    d: int,
)
    requires
        longest_cover(lists, path, d),
    ensures
        ({
            let t = if exists|i: int|
                0 <= i < lists.len() && lists[i].2 == ListType::Allow && #[trigger] covers_at(
                    lists[i],
                    path,
                    d,
                ) {
                ListType::Allow
            } else {
                ListType::Block
            };
            lookup_result(lists_view(lists), path) == Some(
                (urls_covering(lists, path, d, t), suffix(path, d), t),
            )
        }),
{
    let views = lists_view(lists);
    let cs = candidates(views, path);
    let k0 = choose|i: int| 0 <= i < lists.len() && #[trigger] covers_at(lists[i], path, d);
    let j0 = choose|j: int| 0 <= j < lists[k0].1.len() && covers(lists[k0].1[j], path) && #[trigger] lists[k0].1[j].len() == d;
    assert(d >= 0);
    assert forall|i: int| 0 <= i < lists.len() implies {
        &&& (#[trigger] cs[i]).0 == lists[i].0
        &&& cs[i].1 <= d
        &&& cs[i].2 is Some ==> cs[i].2 == Some(lists[i].2)
        &&& forall|t: ListType| (cs[i].1 == d && cs[i].2 == Some(t)) == (lists[i].2 == t && covers_at(lists[i], path, d))
    } by {
        law_list_covers(lists[i].1, lists[i].2, path);
        assert(views[i] == (lists[i].0, entries_model(lists[i].1, lists[i].2)));
        let m = entries_model(lists[i].1, lists[i].2);
        match covering_depth(m, path) {
            Some(di) => {
                let e = suffix(path, di as int);
                let j = choose|j: int| 0 <= j < lists[i].1.len() && lists[i].1[j] == e;
                assert(covers(lists[i].1[j], path));
                assert(e.len() == di);
                assert(di <= d);
                if covers_at(lists[i], path, d) {
                    let j2 = choose|j2: int| 0 <= j2 < lists[i].1.len() && covers(lists[i].1[j2], path) && #[trigger] lists[i].1[j2].len() == d;
                    assert(lists[i].1[j2].len() <= di);
                }
                if di == d {
                    assert(lists[i].1[j].len() == d);
                    assert(covers_at(lists[i], path, d));
                }
            },
            None => {
                if covers_at(lists[i], path, d) {
                    let j2 = choose|j2: int| 0 <= j2 < lists[i].1.len() && covers(lists[i].1[j2], path) && #[trigger] lists[i].1[j2].len() == d;
                    assert(covers(lists[i].1[j2], path));
                }
            },
        }
    }
    assert(cs[k0].1 == d && cs[k0].2 == Some(lists[k0].2));
    lemma_max_depth_exact(cs, d, k0);
    let t = if exists|i: int|
        0 <= i < lists.len() && lists[i].2 == ListType::Allow && #[trigger] covers_at(lists[i], path, d) {
        ListType::Allow
    } else {
        ListType::Block
    };
    if t == ListType::Allow {
        let i = choose|i: int|
            0 <= i < lists.len() && lists[i].2 == ListType::Allow && #[trigger] covers_at(lists[i], path, d);
        assert(cs[i].1 == d && cs[i].2 == Some(ListType::Allow));
        assert(has_status(cs, d, ListType::Allow));
    } else {
        assert(!has_status(cs, d, ListType::Allow)) by {
            if has_status(cs, d, ListType::Allow) {
                let i = choose|i: int| 0 <= i < cs.len() && cs[i].1 == d && cs[i].2 == Some(ListType::Allow);
                assert(lists[i].2 == ListType::Allow && covers_at(lists[i], path, d));
            }
        }
        assert(lists[k0].2 == ListType::Block);
        assert(has_status(cs, d, ListType::Block));
    }
    assert(best_status(cs, d) == Some(t));
    lemma_deciders_urls(cs, lists, path, d, t);
}

} // verus!
