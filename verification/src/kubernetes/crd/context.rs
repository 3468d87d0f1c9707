//! The `DnsRecord` resources known to the server, and their records by name.
use crate::keyed::{
    applied, distinct_keys, entries_view, key_index, last_op, law_history_live, remove_key,
    removed, upsert, upserted,
};
use crate::kubernetes::crd::{copy_records, DnsRecordCrd, DnsRecordData, DnsRecordDataView};
use crate::kubernetes::svc::context::slash_join;
use crate::names::{name_from_utf8_labels, parse_name_from_utf8};
use crate::trie::{value_at, LabelPath, Trie};
use vstd::prelude::*;

verus! {

/// A stored resource with the labels of its name.
pub struct RecordEntry {
    pub record: DnsRecordCrd,
    pub labels: Vec<String>,
}

impl View for RecordEntry {
    type V = ((Seq<char>, Seq<DnsRecordDataView>), LabelPath);

    open spec fn view(&self) -> ((Seq<char>, Seq<DnsRecordDataView>), LabelPath) {
        (self.record@, self.labels.deep_view())
    }
}

/// The resources as keys (`namespace/name`) and entries.
pub type RecordsView = Seq<(Seq<char>, ((Seq<char>, Seq<DnsRecordDataView>), LabelPath))>;

/// Some resource's name has the labels `q`.
pub open spec fn has_records_at(refs: RecordsView, q: LabelPath) -> bool {
    exists|i: int| 0 <= i < refs.len() && refs[i].1.1 == q
}

/// The records of all resources whose name has the labels `q`, in the
/// order of the resources.
pub open spec fn records_at(refs: RecordsView, q: LabelPath) -> Seq<DnsRecordDataView>
    decreases refs.len(),
{
    if refs.len() == 0 {
        Seq::empty()
    } else {
        let prev = records_at(refs.drop_last(), q);
        if refs.last().1.1 == q {
            prev + refs.last().1.0.1
        } else {
            prev
        }
    }
}

/// The records served for the name with labels `q`: those of all resources
/// with that name, when there is one.
pub open spec fn entry_at(refs: RecordsView, q: LabelPath) -> Option<Seq<DnsRecordDataView>> {
    if has_records_at(refs, q) {
        Some(records_at(refs, q))
    } else {
        None
    }
}

/// Every stored name parsed to the labels stored with it.
pub open spec fn labels_parsed(refs: RecordsView) -> bool {
    forall|i: int|
        0 <= i < refs.len() ==> name_from_utf8_labels((#[trigger] refs[i]).1.0.0) == Some(
            refs[i].1.1,
        )
}

/// The records of a list, as values.
pub open spec fn data_view(v: Vec<DnsRecordData>) -> Seq<DnsRecordDataView> {
    v@.map_values(|d: DnsRecordData| d@)
}

pub struct KubernetesCrdContext {
    by_k8s_ref: Vec<(String, RecordEntry)>,
    by_labels: Trie<Vec<DnsRecordData>>,
}

impl View for KubernetesCrdContext {
    type V = RecordsView;

    closed spec fn view(&self) -> RecordsView {
        entries_view(self.by_k8s_ref@)
    }
}

/// The trie holds, at the labels of each stored name, the records of all
/// resources with that name, and nothing elsewhere.
pub open spec fn trie_matches(t: crate::trie::TrieModel<Vec<DnsRecordData>>, refs: RecordsView) -> bool {
    &&& forall|q: LabelPath| (#[trigger] value_at(t, q)) is Some == has_records_at(refs, q)
    &&& forall|q: LabelPath|
        has_records_at(refs, q) ==> data_view(#[trigger] value_at(t, q)->0) == records_at(refs, q)
}

impl KubernetesCrdContext {
    #[verifier::type_invariant]
    closed spec fn inv(&self) -> bool {
        &&& distinct_keys(self@)
        &&& labels_parsed(self@)
        &&& trie_matches(self.by_labels@, self@)
    }
}

proof fn lemma_records_absent(refs: RecordsView, q: LabelPath)
    requires
        !has_records_at(refs, q),
    ensures
        records_at(refs, q) == Seq::<DnsRecordDataView>::empty(),
    decreases refs.len(),
{
    if refs.len() > 0 {
        assert(!has_records_at(refs.drop_last(), q)) by {
            if has_records_at(refs.drop_last(), q) {
                let i = choose|i: int| 0 <= i < refs.drop_last().len() && refs.drop_last()[i].1.1 == q;
                assert(refs[i] == refs.drop_last()[i]);
            }
        }
        lemma_records_absent(refs.drop_last(), q);
        assert(refs[refs.len() - 1] == refs.last());
    }
}

proof fn lemma_has_records_push(refs: RecordsView, e: (Seq<char>, ((Seq<char>, Seq<DnsRecordDataView>), LabelPath)), q: LabelPath)
    ensures
        has_records_at(refs.push(e), q) == (has_records_at(refs, q) || e.1.1 == q),
        records_at(refs.push(e), q) == (if e.1.1 == q {
            records_at(refs, q) + e.1.0.1
        } else {
            records_at(refs, q)
        }),
{
    let r2 = refs.push(e);
    assert(r2.drop_last() =~= refs);
    if has_records_at(r2, q) {
        let i = choose|i: int| 0 <= i < r2.len() && r2[i].1.1 == q;
        if i < refs.len() {
            assert(refs[i] == r2[i]);
        }
    }
    if has_records_at(refs, q) {
        let i = choose|i: int| 0 <= i < refs.len() && refs[i].1.1 == q;
        assert(r2[i] == refs[i]);
    }
    if e.1.1 == q {
        assert(r2[refs.len() as int] == e);
    }
}

/// The trie of the records of `refs`, by the labels of their names.
fn rebuild_labels_from_refs(refs: &Vec<(String, RecordEntry)>) -> (t: Trie<Vec<DnsRecordData>>)
    ensures
        trie_matches(t@, entries_view(refs@)),
{
    let ghost rv = entries_view(refs@);
    let mut t: Trie<Vec<DnsRecordData>> = Trie::new();
    let mut i: usize = 0;
    proof {
        assert(rv.take(0) =~= Seq::empty());
        assert forall|q: LabelPath| (#[trigger] value_at(t@, q)) is Some == has_records_at(rv.take(0), q) by {
            if q.len() == 0 {
                assert(q =~= Seq::<Seq<char>>::empty());
            }
        }
    }
    while i < refs.len()
        invariant
            i <= refs@.len(),
            rv == entries_view(refs@),
            trie_matches(t@, rv.take(i as int)),
        decreases refs@.len() - i,
    {
        let entry = &refs[i].1;
        let ghost e = rv[i as int];
        let ghost prev = rv.take(i as int);
        let ghost old_t = t@;
        proof {
            assert(rv.take(i + 1) =~= prev.push(e));
            assert(e.1.1 == entry.labels.deep_view());
            assert(e.1.0.1 == entry.record.data@.map_values(|d: DnsRecordData| d@));
        }
        let mut data = copy_records(&entry.record.data);
        match t.get_mut(&entry.labels) {
            Some(datas) => {
                datas.append(&mut data);
            },
            None => {
                t.insert(&entry.labels, data);
            },
        }
        proof {
            let q0 = entry.labels.deep_view();
            assert forall|q: LabelPath| #[trigger] value_at(t@, q) is Some == has_records_at(rv.take(i + 1), q)
                && (has_records_at(rv.take(i + 1), q) ==> data_view(value_at(t@, q)->0) == records_at(
                rv.take(i + 1),
                q,
            )) by {
                lemma_has_records_push(prev, e, q);
                if q == q0 {
                    if !has_records_at(prev, q) {
                        lemma_records_absent(prev, q);
                        crate::trie::law_get_after_insert(old_t, q0, value_at(t@, q)->0);
                    }
                    assert(data_view(value_at(t@, q)->0) =~= records_at(prev, q) + e.1.0.1);
                } else {
                    if has_records_at(prev, q0) {
                        assert(value_at(t@, q) == value_at(old_t, q));
                    } else {
                        crate::trie::law_insert_keeps_other_values(old_t, q0, value_at(t@, q0)->0, q);
                    }
                }
            }
        }
        i = i + 1;
    }
    proof {
        assert(rv.take(i as int) =~= rv);
    }
    t
}


fn record_key(namespace: &str, name: &str) -> (r: String)
    ensures
        r@ == slash_join(namespace@, name@),
{
    let mut r = namespace.to_owned();
    r.append("/");
    r.append(name);
    proof {
        reveal_strlit("/");
    }
    r
}

impl Default for KubernetesCrdContext {
    fn default() -> (c: Self)
        ensures
            c@ == Seq::<(Seq<char>, ((Seq<char>, Seq<DnsRecordDataView>), LabelPath))>::empty(),
    {
        let refs: Vec<(String, RecordEntry)> = Vec::new();
        let t = rebuild_labels_from_refs(&refs);
        proof {
            assert(entries_view(refs@) =~= Seq::<(Seq<char>, ((Seq<char>, Seq<DnsRecordDataView>), LabelPath))>::empty());
        }
        KubernetesCrdContext { by_k8s_ref: refs, by_labels: t }
    }
}

impl KubernetesCrdContext {
    /// Stores resource `namespace/name`, replacing the one stored under that
    /// key before, and serves its records under its name.
    pub fn add_entry(&mut self, namespace: &str, name: &str, cr: DnsRecordCrd)
        requires
            name_from_utf8_labels(cr.fqdn@) is Some,
        ensures
            final(self)@ == upserted(
                old(self)@,
                slash_join(namespace@, name@),
                (cr@, name_from_utf8_labels(cr.fqdn@)->0),
            ),
            entry_at(final(self)@, name_from_utf8_labels(cr.fqdn@)->0) is Some,
            (forall|i: int|
                0 <= i < old(self)@.len() && old(self)@[i].0 != slash_join(namespace@, name@)
                    ==> (#[trigger] old(self)@[i]).1.1 != name_from_utf8_labels(cr.fqdn@)->0)
                ==> entry_at(final(self)@, name_from_utf8_labels(cr.fqdn@)->0) == Some(cr@.1),
    {
        proof {
            use_type_invariant(&*self);
            law_records_after_add(
                self@,
                slash_join(namespace@, name@),
                (cr@, name_from_utf8_labels(cr.fqdn@)->0),
            );
        }
        let labels = match parse_name_from_utf8(cr.fqdn.as_str()) {
            Ok(labels) => labels,
            Err(_) => {
                proof {
                    assert(false);
                }
                return;
            },
        };
        let key = record_key(namespace, name);
        let entry = RecordEntry { record: cr, labels };
        let mut taken = KubernetesCrdContext::default();
        std::mem::swap(&mut taken, self);
        let KubernetesCrdContext { by_k8s_ref: mut refs, by_labels: _ } = taken;
        let ghost old_view = entries_view(refs@);
        upsert(&mut refs, key, entry);
        proof {
            let nv = entries_view(refs@);
            assert forall|i: int| 0 <= i < nv.len() implies name_from_utf8_labels(
                (#[trigger] nv[i]).1.0.0,
            ) == Some(nv[i].1.1) by {
                match crate::keyed::key_index(old_view, key@) {
                    Some(j) => {
                        if i != j {
                            assert(nv[i] == old_view[i]);
                        }
                    },
                    None => {
                        if i < old_view.len() {
                            assert(nv[i] == old_view[i]);
                        }
                    },
                }
            }
        }
        let t = rebuild_labels_from_refs(&refs);
        *self = KubernetesCrdContext { by_k8s_ref: refs, by_labels: t };
    }

    /// Stores resource `namespace/name` as `add_entry` does when its name
    /// parses; returns whether it did, and changes nothing when not.
    pub fn try_add_entry(&mut self, namespace: &str, name: &str, cr: DnsRecordCrd) -> (added: bool)
        ensures
            added == name_from_utf8_labels(cr.fqdn@) is Some,
            added ==> final(self)@ == upserted(
                old(self)@,
                slash_join(namespace@, name@),
                (cr@, name_from_utf8_labels(cr.fqdn@)->0),
            ),
            added ==> entry_at(final(self)@, name_from_utf8_labels(cr.fqdn@)->0) is Some,
            added && (forall|i: int|
                0 <= i < old(self)@.len() && old(self)@[i].0 != slash_join(namespace@, name@)
                    ==> (#[trigger] old(self)@[i]).1.1 != name_from_utf8_labels(cr.fqdn@)->0)
                ==> entry_at(final(self)@, name_from_utf8_labels(cr.fqdn@)->0) == Some(cr@.1),
            !added ==> final(self)@ == old(self)@,
    {
        match parse_name_from_utf8(cr.fqdn.as_str()) {
            Ok(_) => {
                self.add_entry(namespace, name, cr);
                true
            },
            Err(_) => false,
        }
    }

    /// Forgets resource `namespace/name` and its records.
    pub fn remove_entry(&mut self, namespace: &str, name: &str)
        ensures
            final(self)@ == removed(old(self)@, slash_join(namespace@, name@)),
            forall|q: LabelPath|
                (forall|i: int|
                    0 <= i < old(self)@.len() && old(self)@[i].0 != slash_join(namespace@, name@)
                        ==> (#[trigger] old(self)@[i]).1.1 != q) ==> #[trigger] entry_at(final(self)@, q)
                    is None,
    {
        proof {
            use_type_invariant(&*self);
            assert forall|q: LabelPath|
                (forall|i: int|
                    0 <= i < self@.len() && self@[i].0 != slash_join(namespace@, name@)
                        ==> (#[trigger] self@[i]).1.1 != q) implies #[trigger] entry_at(
                removed(self@, slash_join(namespace@, name@)),
                q,
            ) is None by {
                law_records_after_remove(self@, slash_join(namespace@, name@), q);
            }
        }
        let key = record_key(namespace, name);
        let mut taken = KubernetesCrdContext::default();
        std::mem::swap(&mut taken, self);
        let KubernetesCrdContext { by_k8s_ref: mut refs, by_labels: _ } = taken;
        let ghost old_view = entries_view(refs@);
        remove_key(&mut refs, key.as_str());
        proof {
            let nv = entries_view(refs@);
            assert forall|i: int| 0 <= i < nv.len() implies name_from_utf8_labels(
                (#[trigger] nv[i]).1.0.0,
            ) == Some(nv[i].1.1) by {
                match crate::keyed::key_index(old_view, key@) {
                    Some(j) => {
                        let i2 = if i < j { i } else { i + 1 };
                        assert(nv[i] == old_view[i2]);
                    },
                    None => {},
                }
            }
        }
        let t = rebuild_labels_from_refs(&refs);
        *self = KubernetesCrdContext { by_k8s_ref: refs, by_labels: t };
    }

    /// The records served for the name with labels `labels`.
    pub fn get_entry(&self, labels: &Vec<String>) -> (r: Option<&Vec<DnsRecordData>>)
        ensures
            match r {
                Some(v) => entry_at(self@, labels.deep_view()) == Some(data_view(*v)),
                None => entry_at(self@, labels.deep_view()) is None,
            },
    {
        proof {
            use_type_invariant(self);
        }
        self.by_labels.get(labels)
    }
}

proof fn lemma_records_single(refs: RecordsView, q: LabelPath, j: int)
    requires
        0 <= j < refs.len(),
        refs[j].1.1 == q,
        forall|i: int| 0 <= i < refs.len() && i != j ==> (#[trigger] refs[i]).1.1 != q,
    ensures
        records_at(refs, q) == refs[j].1.0.1,
    decreases refs.len(),
{
    let prev = refs.drop_last();
    if j == refs.len() - 1 {
        assert(!has_records_at(prev, q)) by {
            if has_records_at(prev, q) {
                let i = choose|i: int| 0 <= i < prev.len() && prev[i].1.1 == q;
                assert(refs[i] == prev[i]);
            }
        }
        lemma_records_absent(prev, q);
        assert(records_at(refs, q) =~= Seq::<DnsRecordDataView>::empty() + refs[j].1.0.1);
    } else {
        assert forall|i: int| 0 <= i < prev.len() && i != j implies (#[trigger] prev[i]).1.1 != q by {
            assert(prev[i] == refs[i]);
        }
        assert(refs.last() == refs[refs.len() - 1]);
        lemma_records_single(prev, q, j);
    }
}

/// A read after a write: once a resource is stored, its name serves
/// records; exactly its records when no other stored resource has a name
/// with the same labels.
pub proof fn law_records_after_add(
    refs: RecordsView,
    key: Seq<char>,
    e: ((Seq<char>, Seq<DnsRecordDataView>), LabelPath),
)
    requires
        distinct_keys(refs),
    ensures
        entry_at(upserted(refs, key, e), e.1) is Some,
        (forall|i: int| 0 <= i < refs.len() && refs[i].0 != key ==> (#[trigger] refs[i]).1.1 != e.1)
            ==> entry_at(upserted(refs, key, e), e.1) == Some(e.0.1),
{
    let u = upserted(refs, key, e);
    let j = match key_index(refs, key) {
        Some(i) => i,
        None => refs.len() as int,
    };
    assert(0 <= j < u.len() && u[j] == (key, e));
    assert(has_records_at(u, e.1));
    if forall|i: int| 0 <= i < refs.len() && refs[i].0 != key ==> (#[trigger] refs[i]).1.1 != e.1 {
        assert forall|i: int| 0 <= i < u.len() && i != j implies (#[trigger] u[i]).1.1 != e.1 by {
            assert(u[i] == refs[i]);
            match key_index(refs, key) {
                Some(k) => {
                    assert(refs[k].0 == key);
                },
                None => {},
            }
            assert(refs[i].0 != key);
        }
        lemma_records_single(u, e.1, j);
    }
}

/// Once a resource is removed, a name that no other stored resource has is
/// served no more.
pub proof fn law_records_after_remove(refs: RecordsView, key: Seq<char>, q: LabelPath)
    requires
        distinct_keys(refs),
    ensures
        (forall|i: int| 0 <= i < refs.len() && refs[i].0 != key ==> (#[trigger] refs[i]).1.1 != q)
            ==> entry_at(removed(refs, key), q) is None,
{
    let r = removed(refs, key);
    if forall|i: int| 0 <= i < refs.len() && refs[i].0 != key ==> (#[trigger] refs[i]).1.1 != q {
        if has_records_at(r, q) {
            let m = choose|m: int| 0 <= m < r.len() && r[m].1.1 == q;
            match key_index(refs, key) {
                Some(k) => {
                    assert(refs[k].0 == key);
                    let m2 = if m < k { m } else { m + 1 };
                    assert(r[m] == refs[m2]);
                    assert(refs[m2].0 != key);
                },
                None => {
                    assert(r[m] == refs[m]);
                },
            }
        }
    }
}

/// The labels of the name of the resource stored under `k` after `ops`;
/// `None` when none is.
pub open spec fn live_labels(
    ops: Seq<(Seq<char>, Option<((Seq<char>, Seq<DnsRecordDataView>), LabelPath)>)>,
    k: Seq<char>,
) -> Option<LabelPath> {
    match last_op(ops, k) {
        Some(Some(e)) => Some(e.1),
        _ => None,
    }
}

/// Over any history of resources stored and removed, from an empty context:
/// the stored resources are exactly the live ones (each once, as last
/// stored), and a name is served exactly when a live resource has it, with
/// the records of all live resources that have it, in store order.
pub proof fn law_served_over_history(
    ops: Seq<(Seq<char>, Option<((Seq<char>, Seq<DnsRecordDataView>), LabelPath)>)>,
    q: LabelPath,
)
    ensures
        ({
            let refs = applied(Seq::empty(), ops);
            &&& distinct_keys(refs)
            &&& forall|i: int|
                0 <= i < refs.len() ==> last_op(ops, #[trigger] refs[i].0) == Some(Some(refs[i].1))
            &&& entry_at(refs, q) is Some <==> exists|k: Seq<char>| #[trigger] live_labels(ops, k) == Some(q)
            &&& entry_at(refs, q) is Some ==> entry_at(refs, q) == Some(records_at(refs, q))
        }),
{
    let refs = applied(Seq::<(Seq<char>, ((Seq<char>, Seq<DnsRecordDataView>), LabelPath))>::empty(), ops);
    law_history_live(ops);
    if has_records_at(refs, q) {
        let i = choose|i: int| 0 <= i < refs.len() && refs[i].1.1 == q;
        assert(last_op(ops, refs[i].0) == Some(Some(refs[i].1)));
        assert(live_labels(ops, refs[i].0) == Some(q));
    }
    if exists|k: Seq<char>| #[trigger] live_labels(ops, k) == Some(q) {
        let k = choose|k: Seq<char>| #[trigger] live_labels(ops, k) == Some(q);
        assert(last_op(ops, k) is Some && last_op(ops, k)->0 is Some);
        let i = choose|i: int| 0 <= i < refs.len() && refs[i] == (k, last_op(ops, k)->0->0);
        assert(refs[i].1.1 == q);
    }
}

} // verus!
