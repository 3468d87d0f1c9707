//! The `DnsRecord` custom resource: A and AAAA records declared for a fully
//! qualified domain name.
pub mod context;
pub mod handler;
pub mod watcher;

use vstd::prelude::*;

verus! {

/// Records of one kind, with their addresses: IPv4 as its 32 bits, IPv6 as
/// its 128 bits.
#[allow(inconsistent_fields)]
pub enum DnsRecordData {
    A { addresses: Vec<u32> },
    AAAA { addresses: Vec<u128> },
}

#[allow(inconsistent_fields)]
pub enum DnsRecordDataView {
    A { addresses: Seq<u32> },
    AAAA { addresses: Seq<u128> },
}

impl View for DnsRecordData {
    type V = DnsRecordDataView;

    open spec fn view(&self) -> DnsRecordDataView {
        match self {
            DnsRecordData::A { addresses } => DnsRecordDataView::A { addresses: addresses@ },
            DnsRecordData::AAAA { addresses } => DnsRecordDataView::AAAA { addresses: addresses@ },
        }
    }
}

/// The spec of a `DnsRecord`: the name and its records.
pub struct DnsRecordCrd {
    pub fqdn: String,
    pub data: Vec<DnsRecordData>,
}

impl View for DnsRecordCrd {
    type V = (Seq<char>, Seq<DnsRecordDataView>);

    open spec fn view(&self) -> (Seq<char>, Seq<DnsRecordDataView>) {
        (self.fqdn@, self.data@.map_values(|d: DnsRecordData| d@))
    }
}

fn copy_vec<T: Copy>(v: &Vec<T>) -> (r: Vec<T>)
    ensures
        r@ == v@,
{
    let mut r: Vec<T> = Vec::new();
    let mut i: usize = 0;
    while i < v.len()
        invariant
            i <= v@.len(),
            r@ == v@.take(i as int),
        decreases v@.len() - i,
    {
        r.push(v[i]);
        proof {
            assert(r@ =~= v@.take(i + 1));
        }
        i = i + 1;
    }
    proof {
        assert(r@ =~= v@);
    }
    r
}

impl DnsRecordData {
    /// A copy of the records.
    pub fn copy(&self) -> (r: Self)
        ensures
            r@ == self@,
    {
        match self {
            DnsRecordData::A { addresses } => DnsRecordData::A { addresses: copy_vec(addresses) },
            DnsRecordData::AAAA { addresses } => DnsRecordData::AAAA {
                addresses: copy_vec(addresses),
            },
        }
    }
}

/// A copy of a list of records.
pub fn copy_records(v: &Vec<DnsRecordData>) -> (r: Vec<DnsRecordData>)
    ensures
        r@.map_values(|d: DnsRecordData| d@) == v@.map_values(|d: DnsRecordData| d@),
{
    let mut r: Vec<DnsRecordData> = Vec::new();
    let mut i: usize = 0;
    while i < v.len()
        invariant
            i <= v@.len(),
            r@.map_values(|d: DnsRecordData| d@) == v@.map_values(|d: DnsRecordData| d@).take(
                i as int,
            ),
        decreases v@.len() - i,
    {
        let ghost prev = r@.map_values(|d: DnsRecordData| d@);
        let d = v[i].copy();
        r.push(d);
        proof {
            assert(r@.map_values(|d: DnsRecordData| d@) =~= prev.push(v@[i as int]@));
            assert(r@.map_values(|d: DnsRecordData| d@) =~= v@.map_values(|d: DnsRecordData| d@).take(
                i + 1,
            ));
        }
        i = i + 1;
    }
    proof {
        assert(v@.map_values(|d: DnsRecordData| d@).take(i as int) =~= v@.map_values(
            |d: DnsRecordData| d@,
        ));
    }
    r
}

} // verus!
