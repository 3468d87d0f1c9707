//! Another store of block and allow lists, deciding by status alone.
use crate::blocker::cover::{
    covering_depth, covering_entry, entries_model, entry_value, path_suffix, reversed_labels,
    reversed_list, suffix,
};
use crate::trie::{LabelPath, Trie, TrieModel};
use vstd::prelude::*;

verus! {

/// What a list says of a name.
#[derive(Clone, Copy, Debug, PartialEq, Eq, Structural)]
pub enum Status {
    Blocked,
    Allowed,
}

/// What one list says of `path` (labels as written): its url, the labels of
/// its longest entry covering `path` in reverse order (top-level label
/// first), and the list's status where an entry covers it.
pub open spec fn status_candidate(list: (Seq<char>, TrieModel<Status>), path: LabelPath) -> (
    Seq<char>,
    LabelPath,
    Option<Status>,
) {
    match covering_depth(list.1, path) {
        Some(d) => (
            list.0,
            suffix(path, d as int).reverse(),
            entry_value(list.1, suffix(path, d as int)),
        ),
        None => (list.0, Seq::empty(), None),
    }
}

pub open spec fn status_candidates(lists: Seq<(Seq<char>, TrieModel<Status>)>, path: LabelPath) -> Seq<
    (Seq<char>, LabelPath, Option<Status>),
> {
    lists.map_values(|l: (Seq<char>, TrieModel<Status>)| status_candidate(l, path))
}

pub open spec fn any_with(cs: Seq<(Seq<char>, LabelPath, Option<Status>)>, s: Status) -> bool {
    exists|i: int| 0 <= i < cs.len() && cs[i].2 == Some(s)
}

/// The url and walked name of every candidate with status `s`, in order.
pub open spec fn with_status(cs: Seq<(Seq<char>, LabelPath, Option<Status>)>, s: Status) -> Seq<
    (Seq<char>, LabelPath),
>
    decreases cs.len(),
{
    if cs.len() == 0 {
        Seq::empty()
    } else {
        let w = with_status(cs.drop_last(), s);
        if cs.last().2 == Some(s) {
            w.push((cs.last().0, cs.last().1))
        } else {
            w
        }
    }
}

/// The status of `path`: allowed if any list allows it, blocked if none
/// allows and some blocks it, allowed when no list says anything; with the
/// lists that decided.
pub open spec fn status_result(lists: Seq<(Seq<char>, TrieModel<Status>)>, path: LabelPath) -> (
    Seq<(Seq<char>, LabelPath)>,
    Status,
) {
    let cs = status_candidates(lists, path);
    if any_with(cs, Status::Allowed) {
        (with_status(cs, Status::Allowed), Status::Allowed)
    } else if any_with(cs, Status::Blocked) {
        (with_status(cs, Status::Blocked), Status::Blocked)
    } else {
        (Seq::empty(), Status::Allowed)
    }
}

spec fn fold_state_ok(
    cs: Seq<(Seq<char>, LabelPath, Option<Status>)>,
    s: Option<Status>,
    deciders: Seq<(Seq<char>, LabelPath)>,
) -> bool {
    &&& s == (if any_with(cs, Status::Allowed) {
        Some(Status::Allowed)
    } else if any_with(cs, Status::Blocked) {
        Some(Status::Blocked)
    } else {
        None
    })
    &&& deciders == match s {
        Some(t) => with_status(cs, t),
        None => Seq::empty(),
    }
}

proof fn lemma_with_status_none(cs: Seq<(Seq<char>, LabelPath, Option<Status>)>, s: Status)
    requires
        !any_with(cs, s),
    ensures
        with_status(cs, s) == Seq::<(Seq<char>, LabelPath)>::empty(),
    decreases cs.len(),
{
    if cs.len() > 0 {
        assert(!any_with(cs.drop_last(), s)) by {
            if any_with(cs.drop_last(), s) {
                let i = choose|i: int| 0 <= i < cs.drop_last().len() && cs.drop_last()[i].2 == Some(s);
                assert(cs[i] == cs.drop_last()[i]);
            }
        }
        lemma_with_status_none(cs.drop_last(), s);
        assert(cs[cs.len() - 1] == cs.last());
    }
}

proof fn lemma_fold_step(
    cs: Seq<(Seq<char>, LabelPath, Option<Status>)>,
    s: Option<Status>,
    deciders: Seq<(Seq<char>, LabelPath)>,
    c: (Seq<char>, LabelPath, Option<Status>),
)
    requires
        fold_state_ok(cs, s, deciders),
    ensures
        fold_state_ok(
            cs.push(c),
            match c.2 {
                None => s,
                Some(Status::Blocked) => if s == Some(Status::Allowed) {
                    s
                } else {
                    Some(Status::Blocked)
                },
                Some(Status::Allowed) => Some(Status::Allowed),
            },
            match c.2 {
                None => deciders,
                Some(Status::Blocked) => if s == Some(Status::Allowed) {
                    deciders
                } else if s is None {
                    seq![(c.0, c.1)]
                } else {
                    deciders.push((c.0, c.1))
                },
                Some(Status::Allowed) => if s == Some(Status::Allowed) {
                    deciders.push((c.0, c.1))
                } else {
                    seq![(c.0, c.1)]
                },
            },
        ),
{
    let cs2 = cs.push(c);
    assert(cs2.drop_last() =~= cs);
    assert(cs2.last() == c);
    assert forall|t: Status| #[trigger] any_with(cs2, t) == (any_with(cs, t) || c.2 == Some(t)) by {
        if any_with(cs2, t) {
            let i = choose|i: int| 0 <= i < cs2.len() && cs2[i].2 == Some(t);
            if i < cs.len() {
                assert(cs[i] == cs2[i]);
            }
        }
        if any_with(cs, t) {
            let i = choose|i: int| 0 <= i < cs.len() && cs[i].2 == Some(t);
            assert(cs2[i] == cs[i]);
        }
        if c.2 == Some(t) {
            assert(cs2[cs.len() as int] == c);
        }
    }
    match c.2 {
        Some(t) => {
            if !any_with(cs, t) {
                lemma_with_status_none(cs, t);
            }
        },
        None => {},
    }
}

pub struct BlockListZoneHandlerDomains {
    tries: Vec<(String, Trie<Status>)>,
}

impl View for BlockListZoneHandlerDomains {
    type V = Seq<(Seq<char>, TrieModel<Status>)>;

    closed spec fn view(&self) -> Seq<(Seq<char>, TrieModel<Status>)> {
        self.tries@.map_values(|e: (String, Trie<Status>)| (e.0@, e.1@))
    }
}

/// The position of `url` among the lists.
pub open spec fn list_index(lists: Seq<(Seq<char>, TrieModel<Status>)>, url: Seq<char>) -> Option<
    int,
> {
    if exists|i: int| 0 <= i < lists.len() && lists[i].0 == url {
        Some(choose|i: int| 0 <= i < lists.len() && lists[i].0 == url)
    } else {
        None
    }
}

/// No url names two lists.
pub open spec fn list_urls_distinct(lists: Seq<(Seq<char>, TrieModel<Status>)>) -> bool {
    forall|i: int, j: int|
        0 <= i < lists.len() && 0 <= j < lists.len() && i != j ==> lists[i].0 != lists[j].0
}

/// The model after storing `list` with `status` under `url`, replacing the
/// list stored under it before.
pub open spec fn with_list(
    lists: Seq<(Seq<char>, TrieModel<Status>)>,
    url: Seq<char>,
    list: Seq<LabelPath>,
    status: Status,
) -> Seq<(Seq<char>, TrieModel<Status>)> {
    match list_index(lists, url) {
        Some(i) => lists.update(i, (url, entries_model(list, status))),
        None => lists.push((url, entries_model(list, status))),
    }
}

impl BlockListZoneHandlerDomains {
    #[verifier::type_invariant]
    closed spec fn inv(&self) -> bool {
        list_urls_distinct(self@)
    }

    /// No lists.
    pub fn new() -> (d: Self)
        ensures
            d@ == Seq::<(Seq<char>, TrieModel<Status>)>::empty(),
    {
        let d = BlockListZoneHandlerDomains { tries: Vec::new() };
        proof {
            assert(d@ =~= Seq::<(Seq<char>, TrieModel<Status>)>::empty());
        }
        d
    }

    fn add_list(&mut self, url: &str, list: &Vec<Vec<String>>, status: Status)
        ensures
            final(self)@ == with_list(old(self)@, url@, list.deep_view(), status),
            list_urls_distinct(final(self)@),
    {
        proof {
            use_type_invariant(&*self);
        }
        let trie = Trie::from_paths(&reversed_list(list), status);
        let key = url.to_owned();
        let ghost entry = (url@, entries_model(list.deep_view(), status));
        let mut i: usize = 0;
        while i < self.tries.len()
            invariant
                i <= self.tries@.len(),
                key@ == url@,
                self@ == old(self)@,
                list_urls_distinct(self@),
                trie@ == entries_model(list.deep_view(), status),
                entry == (url@, entries_model(list.deep_view(), status)),
                forall|j: int| 0 <= j < i ==> #[trigger] self@[j].0 != url@,
            decreases self.tries@.len() - i,
        {
            if self.tries[i].0 == key {
                let ghost old_view = self@;
                proof {
                    assert(old_view[i as int].0 == url@);
                    assert(list_index(old_view, url@) == Some(i as int)) by {
                        let c = choose|c: int| 0 <= c < old_view.len() && old_view[c].0 == url@;
                        if c != i {
                            assert(old_view[c].0 != old_view[i as int].0);
                        }
                    }
                    assert(old_view.update(i as int, entry) =~= (self.tries@.update(
                        i as int,
                        (key, trie),
                    )).map_values(|e: (String, Trie<Status>)| (e.0@, e.1@)));
                    assert(list_urls_distinct(old_view.update(i as int, entry)));
                }
                let mut tries: Vec<(String, Trie<Status>)> = Vec::new();
                std::mem::swap(&mut tries, &mut self.tries);
                tries.set(i, (key, trie));
                self.tries = tries;
                return;
            }
            i = i + 1;
        }
        let ghost old_view = self@;
        proof {
            assert(list_index(old_view, url@) is None);
            assert(old_view.push(entry) =~= self.tries@.push((key, trie)).map_values(
                |e: (String, Trie<Status>)| (e.0@, e.1@),
            ));
            assert(list_urls_distinct(old_view.push(entry)));
        }
        let mut tries: Vec<(String, Trie<Status>)> = Vec::new();
        std::mem::swap(&mut tries, &mut self.tries);
        tries.push((key, trie));
        self.tries = tries;
    }

    /// Stores the allow list fetched from `url`, replacing the list stored
    /// under that url before.
    pub fn add_allow_list(&mut self, url: &str, list: &Vec<Vec<String>>)
        ensures
            final(self)@ == with_list(old(self)@, url@, list.deep_view(), Status::Allowed),
            list_urls_distinct(final(self)@),
    {
        self.add_list(url, list, Status::Allowed);
    }

    /// Stores the block list fetched from `url`, replacing the list stored
    /// under that url before.
    pub fn add_block_list(&mut self, url: &str, list: &Vec<Vec<String>>)
        ensures
            final(self)@ == with_list(old(self)@, url@, list.deep_view(), Status::Blocked),
            list_urls_distinct(final(self)@),
    {
        self.add_list(url, list, Status::Blocked);
    }

    /// The status of `path` (labels as written) and the lists that decided
    /// it, each with the labels of its longest entry covering `path` in
    /// reverse order: top-level label first, so that `example.com` comes
    /// back as `com`, `example`.
    pub fn status_of(&self, path: &Vec<String>) -> (r: (Vec<(String, Vec<String>)>, Status))
        ensures
            (r.0.deep_view(), r.1) == status_result(self@, path.deep_view()),
    {
        let ghost p = path.deep_view();
        let ghost cs = status_candidates(self@, p);
        let mut deciders: Vec<(String, Vec<String>)> = Vec::new();
        let mut status: Option<Status> = None;
        let mut i: usize = 0;
        proof {
            assert(cs.take(0) =~= Seq::<(Seq<char>, LabelPath, Option<Status>)>::empty());
            assert(deciders.deep_view() =~= Seq::<(Seq<char>, LabelPath)>::empty());
        }
        while i < self.tries.len()
            invariant
                i <= self.tries@.len(),
                p == path.deep_view(),
                cs == status_candidates(self@, p),
                cs.len() == self.tries@.len(),
                fold_state_ok(cs.take(i as int), status, deciders.deep_view()),
            decreases self.tries@.len() - i,
        {
            let (name, st): (Vec<String>, Option<Status>) = match covering_entry(&self.tries[i].1, path) {
                Some((k, v)) => (reversed_labels(&path_suffix(path, k)), Some(*v)),
                None => (Vec::new(), None),
            };
            let ghost c = cs[i as int];
            proof {
                let m = self.tries@[i as int].1@;
                assert(self@[i as int] == (self.tries@[i as int].0@, m));
                assert(c == status_candidate(self@[i as int], p));
                if st is None {
                    assert(name.deep_view() =~= Seq::<Seq<char>>::empty());
                }
                assert(c == (self.tries@[i as int].0@, name.deep_view(), st));
                assert(cs.take(i + 1) =~= cs.take(i as int).push(c));
                lemma_fold_step(cs.take(i as int), status, deciders.deep_view(), c);
            }
            let ghost prev = deciders.deep_view();
            match st {
                None => {},
                Some(Status::Blocked) => {
                    if status == Some(Status::Allowed) {
                    } else {
                        if status.is_none() {
                            deciders = Vec::new();
                            status = Some(Status::Blocked);
                            proof {
                                assert(deciders.deep_view() =~= Seq::<(Seq<char>, LabelPath)>::empty());
                            }
                        }
                        let ghost before = deciders.deep_view();
                        deciders.push((self.tries[i].0.clone(), name));
                        proof {
                            assert(deciders.deep_view() =~= before.push((c.0, c.1)));
                        }
                    }
                },
                Some(Status::Allowed) => {
                    if status != Some(Status::Allowed) {
                        deciders = Vec::new();
                        status = Some(Status::Allowed);
                        proof {
                            assert(deciders.deep_view() =~= Seq::<(Seq<char>, LabelPath)>::empty());
                        }
                    }
                    let ghost before = deciders.deep_view();
                    deciders.push((self.tries[i].0.clone(), name));
                    proof {
                        assert(deciders.deep_view() =~= before.push((c.0, c.1)));
                    }
                },
            }
            i = i + 1;
        }
        proof {
            assert(cs.take(i as int) =~= cs);
        }
        let s = match status {
            Some(s) => s,
            None => Status::Allowed,
        };
        (deciders, s)
    }
}

/// A name is blocked exactly when some list blocks it and no list allows
/// it: an allowing list wins whatever the depth, and a name no list speaks
/// of is allowed.
pub proof fn law_blocked_iff(lists: Seq<(Seq<char>, TrieModel<Status>)>, path: LabelPath)
    ensures
        (status_result(lists, path).1 == Status::Blocked) == (!any_with(
            status_candidates(lists, path),
            Status::Allowed,
        ) && any_with(status_candidates(lists, path), Status::Blocked)),
{
}

/// Every list reported as deciding holds the decided status.
pub proof fn law_deciders_agree(lists: Seq<(Seq<char>, TrieModel<Status>)>, path: LabelPath, k: int)
    requires
        0 <= k < status_result(lists, path).0.len(),
    ensures
        exists|i: int|
            0 <= i < lists.len() && status_candidates(lists, path)[i].2 == Some(
                status_result(lists, path).1,
            ) && (#[trigger] status_candidates(lists, path)[i]).0 == status_result(lists, path).0[k].0,
{
    let cs = status_candidates(lists, path);
    let t = status_result(lists, path).1;
    lemma_with_status_members(cs, t, k);
}

proof fn lemma_with_status_members(cs: Seq<(Seq<char>, LabelPath, Option<Status>)>, t: Status, k: int)
    requires
        0 <= k < with_status(cs, t).len(),
    ensures
        exists|i: int| 0 <= i < cs.len() && cs[i].2 == Some(t) && (#[trigger] cs[i]).0 == with_status(cs, t)[k].0,
    decreases cs.len(),
{
    let w = with_status(cs.drop_last(), t);
    if k < w.len() {
        lemma_with_status_members(cs.drop_last(), t, k);
        let i = choose|i: int|
            0 <= i < cs.drop_last().len() && cs.drop_last()[i].2 == Some(t) && (#[trigger] cs.drop_last()[i]).0 == w[k].0;
        assert(cs[i] == cs.drop_last()[i]);
    } else {
        assert(cs[cs.len() - 1] == cs.last());
    }
}

} // verus!
