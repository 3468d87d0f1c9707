//! The decision of the `DnsRecord` zone for a query.
use crate::kubernetes::crd::context::{data_view, entry_at, KubernetesCrdContext};
use crate::kubernetes::crd::{DnsRecordData, DnsRecordDataView};
use crate::utils::QueryType;
use vstd::prelude::*;

verus! {

/// Time to live of the records the zone serves.
pub const TTL: u32 = 30;

/// The records the zone answers with.
pub enum CrdAnswer {
    A(Vec<u32>),
    Aaaa(Vec<u128>),
}

/// The IPv4 addresses of the A records, in order.
pub open spec fn a_addresses(d: Seq<DnsRecordDataView>) -> Seq<u32>
    decreases d.len(),
{
    if d.len() == 0 {
        Seq::empty()
    } else {
        a_addresses(d.drop_last()) + match d.last() {
            DnsRecordDataView::A { addresses } => addresses,
            DnsRecordDataView::AAAA { .. } => Seq::empty(),
        }
    }
}

/// The IPv6 addresses of the AAAA records, in order.
pub open spec fn aaaa_addresses(d: Seq<DnsRecordDataView>) -> Seq<u128>
    decreases d.len(),
{
    if d.len() == 0 {
        Seq::empty()
    } else {
        aaaa_addresses(d.drop_last()) + match d.last() {
            DnsRecordDataView::A { .. } => Seq::empty(),
            DnsRecordDataView::AAAA { addresses } => addresses,
        }
    }
}

fn a_of(data: &Vec<DnsRecordData>) -> (r: Vec<u32>)
    ensures
        r@ == a_addresses(data_view(*data)),
{
    let ghost dv = data_view(*data);
    let mut r: Vec<u32> = Vec::new();
    let mut i: usize = 0;
    while i < data.len()
        invariant
            i <= data@.len(),
            dv == data_view(*data),
            r@ == a_addresses(dv.take(i as int)),
        decreases data@.len() - i,
    {
        let ghost base = r@;
        proof {
            let t = dv.take(i + 1);
            assert(t.drop_last() =~= dv.take(i as int));
            assert(t.last() == data@[i as int]@);
        }
        match &data[i] {
            DnsRecordData::A { addresses } => {
                let mut j: usize = 0;
                while j < addresses.len()
                    invariant
                        j <= addresses@.len(),
                        r@ == base + addresses@.take(j as int),
                    decreases addresses@.len() - j,
                {
                    r.push(addresses[j]);
                    proof {
                        assert(r@ =~= base + addresses@.take(j + 1));
                    }
                    j = j + 1;
                }
                proof {
                    assert(addresses@.take(j as int) =~= addresses@);
                }
            },
            DnsRecordData::AAAA { .. } => {
                proof {
                    assert(base + Seq::<u32>::empty() =~= base);
                }
            },
        }
        i = i + 1;
    }
    proof {
        assert(dv.take(i as int) =~= dv);
    }
    r
}

fn aaaa_of(data: &Vec<DnsRecordData>) -> (r: Vec<u128>)
    ensures
        r@ == aaaa_addresses(data_view(*data)),
{
    let ghost dv = data_view(*data);
    let mut r: Vec<u128> = Vec::new();
    let mut i: usize = 0;
    while i < data.len()
        invariant
            i <= data@.len(),
            dv == data_view(*data),
            r@ == aaaa_addresses(dv.take(i as int)),
        decreases data@.len() - i,
    {
        let ghost base = r@;
        proof {
            let t = dv.take(i + 1);
            assert(t.drop_last() =~= dv.take(i as int));
            assert(t.last() == data@[i as int]@);
        }
        match &data[i] {
            DnsRecordData::AAAA { addresses } => {
                let mut j: usize = 0;
                while j < addresses.len()
                    invariant
                        j <= addresses@.len(),
                        r@ == base + addresses@.take(j as int),
                    decreases addresses@.len() - j,
                {
                    r.push(addresses[j]);
                    proof {
                        assert(r@ =~= base + addresses@.take(j + 1));
                    }
                    j = j + 1;
                }
                proof {
                    assert(addresses@.take(j as int) =~= addresses@);
                }
            },
            DnsRecordData::A { .. } => {
                proof {
                    assert(base + Seq::<u128>::empty() =~= base);
                }
            },
        }
        i = i + 1;
    }
    proof {
        assert(dv.take(i as int) =~= dv);
    }
    r
}

/// What the zone answers: for an A (AAAA) query on a name with records,
/// the addresses of its A (AAAA) records, when there are any; otherwise
/// nothing, and the query goes to the next zone.
pub open spec fn crd_answer_ok(
    entry: Option<Seq<DnsRecordDataView>>,
    query_type: QueryType,
    r: Option<CrdAnswer>,
) -> bool {
    match (query_type, entry) {
        (QueryType::A, Some(d)) => if a_addresses(d).len() > 0 {
            r matches Some(CrdAnswer::A(a)) && a@ == a_addresses(d)
        } else {
            r is None
        },
        (QueryType::AAAA, Some(d)) => if aaaa_addresses(d).len() > 0 {
            r matches Some(CrdAnswer::Aaaa(a)) && a@ == aaaa_addresses(d)
        } else {
            r is None
        },
        _ => r is None,
    }
}

/// The answer of the `DnsRecord` zone to a query for the name with labels
/// `name`, of type `query_type`.
pub fn crd_zone_lookup(context: &KubernetesCrdContext, name: &Vec<String>, query_type: QueryType) -> (r:
    Option<CrdAnswer>)
    ensures
        crd_answer_ok(entry_at(context@, name.deep_view()), query_type, r),
{
    match query_type {
        QueryType::A => match context.get_entry(name) {
            Some(data) => {
                let a = a_of(data);
                if a.len() > 0 {
                    Some(CrdAnswer::A(a))
                } else {
                    None
                }
            },
            None => None,
        },
        QueryType::AAAA => match context.get_entry(name) {
            Some(data) => {
                let a = aaaa_of(data);
                if a.len() > 0 {
                    Some(CrdAnswer::Aaaa(a))
                } else {
                    None
                }
            },
            None => None,
        },
        _ => None,
    }
}

/// The A addresses of records merged from several resources are those of
/// each in turn; likewise the AAAA addresses.
pub proof fn law_addresses_concat(d1: Seq<DnsRecordDataView>, d2: Seq<DnsRecordDataView>)
    ensures
        a_addresses(d1 + d2) == a_addresses(d1) + a_addresses(d2),
        aaaa_addresses(d1 + d2) == aaaa_addresses(d1) + aaaa_addresses(d2),
    decreases d2.len(),
{
    if d2.len() == 0 {
        assert(d1 + d2 =~= d1);
        assert(a_addresses(d1) + a_addresses(d2) =~= a_addresses(d1));
        assert(aaaa_addresses(d1) + aaaa_addresses(d2) =~= aaaa_addresses(d1));
    } else {
        law_addresses_concat(d1, d2.drop_last());
        assert((d1 + d2).drop_last() =~= d1 + d2.drop_last());
        assert((d1 + d2).last() == d2.last());
        let tail_a = match d2.last() {
            DnsRecordDataView::A { addresses } => addresses,
            DnsRecordDataView::AAAA { .. } => Seq::<u32>::empty(),
        };
        let tail_aaaa = match d2.last() {
            DnsRecordDataView::A { .. } => Seq::<u128>::empty(),
            DnsRecordDataView::AAAA { addresses } => addresses,
        };
        assert(a_addresses(d1) + a_addresses(d2.drop_last()) + tail_a =~= a_addresses(d1) + (
        a_addresses(d2.drop_last()) + tail_a));
        assert(aaaa_addresses(d1) + aaaa_addresses(d2.drop_last()) + tail_aaaa =~= aaaa_addresses(
            d1,
        ) + (aaaa_addresses(d2.drop_last()) + tail_aaaa));
    }
}

/// One A record serves all its addresses, in order, and no AAAA address;
/// one AAAA record serves all its addresses and no A address.
pub proof fn law_addresses_of_one_record(xs: Seq<u32>, ys: Seq<u128>)
    ensures
        a_addresses(seq![DnsRecordDataView::A { addresses: xs }]) == xs,
        aaaa_addresses(seq![DnsRecordDataView::A { addresses: xs }]).len() == 0,
        aaaa_addresses(seq![DnsRecordDataView::AAAA { addresses: ys }]) == ys,
        a_addresses(seq![DnsRecordDataView::AAAA { addresses: ys }]).len() == 0,
{
    let a = seq![DnsRecordDataView::A { addresses: xs }];
    let b = seq![DnsRecordDataView::AAAA { addresses: ys }];
    assert(a.drop_last() =~= Seq::<DnsRecordDataView>::empty());
    assert(b.drop_last() =~= Seq::<DnsRecordDataView>::empty());
    assert(a.last() == DnsRecordDataView::A { addresses: xs });
    assert(b.last() == DnsRecordDataView::AAAA { addresses: ys });
    assert(a_addresses(a.drop_last()) =~= Seq::<u32>::empty());
    assert(aaaa_addresses(a.drop_last()) =~= Seq::<u128>::empty());
    assert(a_addresses(b.drop_last()) =~= Seq::<u32>::empty());
    assert(aaaa_addresses(b.drop_last()) =~= Seq::<u128>::empty());
    assert(Seq::<u32>::empty() + xs =~= xs);
    assert(Seq::<u128>::empty() + ys =~= ys);
    assert(Seq::<u32>::empty() + Seq::<u32>::empty() =~= Seq::<u32>::empty());
    assert(Seq::<u128>::empty() + Seq::<u128>::empty() =~= Seq::<u128>::empty());
}

/// A name whose records are one A record with addresses `xs` answers an A
/// query with exactly `xs` (when there are any), and an AAAA query with
/// nothing.
pub proof fn law_one_a_record_answers(xs: Seq<u32>, r: Option<CrdAnswer>, r6: Option<CrdAnswer>)
    ensures
        xs.len() > 0 && crd_answer_ok(Some(seq![DnsRecordDataView::A { addresses: xs }]), QueryType::A, r)
            ==> (r matches Some(CrdAnswer::A(a)) && a@ == xs),
        crd_answer_ok(Some(seq![DnsRecordDataView::A { addresses: xs }]), QueryType::AAAA, r6)
            ==> r6 is None,
{
    law_addresses_of_one_record(xs, Seq::empty());
}

} // verus!
