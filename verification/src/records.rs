//! The DNS records of the known nodes.

use crate::address::IpAddr;
use crate::coordinates::Coordinates;
use crate::hosted_zone::{
    domains_view, remove_fqdn_trailing_dot, without_trailing_dot, HostedZoneDomainView,
};
use crate::node_state::{NodeState, NodeStateView};
use crate::publisher::DnsPublisher;
use vstd::prelude::*;

verus! {

/// The type of a DNS record: one with an IPv4 address, one with an IPv6
/// address, or any other.
#[derive(Clone, Copy, Debug, PartialEq, Eq, Structural)]
pub enum RecordType {
    A,
    Aaaa,
    Other,
}

/// A record to be published: an address of a node, and where that is, under a
/// domain.
#[derive(Debug)]
pub struct DnsRecord {
    pub domain: String,
    pub node: String,
    pub address: IpAddr,
    pub coordinates: Option<Coordinates>,
}

/// A `DnsRecord` by its texts.
pub ghost struct DnsRecordView {
    pub domain: Seq<char>,
    pub node: Seq<char>,
    pub address: IpAddr,
    pub coordinates: Option<Coordinates>,
}

impl View for DnsRecord {
    type V = DnsRecordView;

    open spec fn view(&self) -> DnsRecordView {
        DnsRecordView {
            domain: self.domain@,
            node: self.node@,
            address: self.address,
            coordinates: self.coordinates,
        }
    }
}

/// The records by their texts.
pub open spec fn records_view(records: Seq<DnsRecord>) -> Seq<DnsRecordView> {
    Seq::new(records.len(), |i: int| records[i]@)
}

/// A record that a hosted zone has, by its name and type.
pub struct ExistingRecord {
    pub name: String,
    pub kind: RecordType,
}

/// The type of the record that holds an address.
pub open spec fn type_for(address: IpAddr) -> RecordType {
    match address {
        IpAddr::V4(..) => RecordType::A,
        IpAddr::V6(..) => RecordType::Aaaa,
    }
}

/// Whether a record is one that publishing under the domain replaces: an
/// address record of that very domain.
pub open spec fn is_replaced(domain: Seq<char>, name: Seq<char>, kind: RecordType) -> bool {
    kind != RecordType::Other && without_trailing_dot(name) == domain
}

/// The records of a node under a domain: one for each of its addresses.
pub open spec fn node_records(domain: Seq<char>, node: NodeStateView) -> Seq<DnsRecordView> {
    Seq::new(
        node.ips.len(),
        |i: int|
            DnsRecordView {
                domain,
                node: node.name,
                address: node.ips[i],
                coordinates: node.coordinates,
            },
    )
}

/// The records of some nodes under a domain, node by node.
pub open spec fn domain_records(domain: Seq<char>, nodes: Seq<NodeStateView>) -> Seq<DnsRecordView>
    decreases nodes.len(),
{
    if nodes.len() == 0 {
        Seq::empty()
    } else {
        domain_records(domain, nodes.drop_last()) + node_records(domain, nodes.last())
    }
}

/// The records of some nodes under some domains, domain by domain.
pub open spec fn all_records(
    domains: Seq<HostedZoneDomainView>,
    nodes: Seq<NodeStateView>,
) -> Seq<DnsRecordView>
    decreases domains.len(),
{
    if domains.len() == 0 {
        Seq::empty()
    } else {
        all_records(domains.drop_last(), nodes) + domain_records(domains.last().domain, nodes)
    }
}

/// A record is published under a domain just if it holds an address of one of
/// the nodes: every domain has the records of all nodes.
pub proof fn domains_have_the_records_of_all_nodes(
    domain: Seq<char>,
    nodes: Seq<NodeStateView>,
    record: DnsRecordView,
)
    ensures
        domain_records(domain, nodes).contains(record) <==> exists|i: int|
            0 <= i < nodes.len() && node_records(domain, #[trigger] nodes[i]).contains(record),
    decreases nodes.len(),
{
    if nodes.len() > 0 {
        let before = nodes.drop_last();
        domains_have_the_records_of_all_nodes(domain, before, record);
        let head = domain_records(domain, before);
        let tail = node_records(domain, nodes.last());
        let all = domain_records(domain, nodes);
        if head.contains(record) {
            let k = head.index_of(record);
            assert(all[k] == record);
            let i = choose|i: int|
                0 <= i < before.len() && node_records(domain, #[trigger] before[i]).contains(record);
            assert(nodes[i] == before[i]);
        }
        if tail.contains(record) {
            let k = tail.index_of(record);
            assert(all[head.len() + k] == record);
            assert(nodes[nodes.len() - 1] == nodes.last());
        }
        if all.contains(record) {
            let k = all.index_of(record);
            if k < head.len() {
                assert(head[k] == record);
            } else {
                assert(tail[k - head.len()] == record);
            }
        }
        if exists|i: int|
            0 <= i < nodes.len() && node_records(domain, #[trigger] nodes[i]).contains(record) {
            let i = choose|i: int|
                0 <= i < nodes.len() && node_records(domain, #[trigger] nodes[i]).contains(record);
            if i < before.len() {
                assert(before[i] == nodes[i]);
            }
        }
    }
}

/// A record is published just if it is published under one of the domains.
pub proof fn records_are_those_of_the_domains(
    domains: Seq<HostedZoneDomainView>,
    nodes: Seq<NodeStateView>,
    record: DnsRecordView,
)
    ensures
        all_records(domains, nodes).contains(record) <==> exists|d: int|
            0 <= d < domains.len() && domain_records(
                (#[trigger] domains[d]).domain,
                nodes,
            ).contains(record),
    decreases domains.len(),
{
    if domains.len() > 0 {
        let before = domains.drop_last();
        records_are_those_of_the_domains(before, nodes, record);
        let head = all_records(before, nodes);
        let tail = domain_records(domains.last().domain, nodes);
        let all = all_records(domains, nodes);
        if head.contains(record) {
            let k = head.index_of(record);
            assert(all[k] == record);
            let d = choose|d: int|
                0 <= d < before.len() && domain_records(
                    (#[trigger] before[d]).domain,
                    nodes,
                ).contains(record);
            assert(domains[d] == before[d]);
        }
        if tail.contains(record) {
            let k = tail.index_of(record);
            assert(all[head.len() + k] == record);
            assert(domains[domains.len() - 1] == domains.last());
        }
        if all.contains(record) {
            let k = all.index_of(record);
            if k < head.len() {
                assert(head[k] == record);
            } else {
                assert(tail[k - head.len()] == record);
            }
        }
        if exists|d: int|
            0 <= d < domains.len() && domain_records(
                (#[trigger] domains[d]).domain,
                nodes,
            ).contains(record) {
            let d = choose|d: int|
                0 <= d < domains.len() && domain_records(
                    (#[trigger] domains[d]).domain,
                    nodes,
                ).contains(record);
            if d < before.len() {
                assert(before[d] == domains[d]);
            }
        }
    }
}

/// A record is published just if it is under one of the domains and bears the
/// name, one of the addresses, and the coordinates, as they are, of one of the
/// nodes.
pub proof fn records_bear_what_the_nodes_have(
    domains: Seq<HostedZoneDomainView>,
    nodes: Seq<NodeStateView>,
    record: DnsRecordView,
)
    ensures
        all_records(domains, nodes).contains(record) <==> exists|d: int, n: int, i: int|
            #![trigger domains[d], nodes[n].ips[i]]
            {
                &&& 0 <= d < domains.len()
                &&& 0 <= n < nodes.len()
                &&& 0 <= i < nodes[n].ips.len()
                &&& record.domain == domains[d].domain
                &&& record.node == nodes[n].name
                &&& record.address == nodes[n].ips[i]
                &&& record.coordinates == nodes[n].coordinates
            },
{
    records_are_those_of_the_domains(domains, nodes, record);
    if all_records(domains, nodes).contains(record) {
        let d = choose|d: int|
            0 <= d < domains.len() && domain_records(
                (#[trigger] domains[d]).domain,
                nodes,
            ).contains(record);
        let domain = domains[d].domain;
        domains_have_the_records_of_all_nodes(domain, nodes, record);
        let n = choose|n: int|
            0 <= n < nodes.len() && node_records(domain, #[trigger] nodes[n]).contains(record);
        let i = node_records(domain, nodes[n]).index_of(record);
        assert(node_records(domain, nodes[n])[i] == record);
        assert(record.address == nodes[n].ips[i]);
        assert(domains[d].domain == record.domain);
    }
    assert forall|d: int, n: int, i: int|
        #![trigger domains[d], nodes[n].ips[i]]
        {
            &&& 0 <= d < domains.len()
            &&& 0 <= n < nodes.len()
            &&& 0 <= i < nodes[n].ips.len()
            &&& record.domain == domains[d].domain
            &&& record.node == nodes[n].name
            &&& record.address == nodes[n].ips[i]
            &&& record.coordinates == nodes[n].coordinates
        } implies all_records(domains, nodes).contains(record) by {
        let domain = domains[d].domain;
        assert(node_records(domain, nodes[n])[i] == record);
        assert(node_records(domain, nodes[n]).contains(record));
        domains_have_the_records_of_all_nodes(domain, nodes, record);
        assert(domain_records(domain, nodes).contains(record));
    }
}

/// One more node adds, under a domain, as many records as it has addresses, in
/// their order and behind those of the others; one more domain adds the records
/// of all nodes under it. Without nodes or domains there are no records.
pub proof fn records_are_added_node_by_node(
    domains: Seq<HostedZoneDomainView>,
    domain: HostedZoneDomainView,
    nodes: Seq<NodeStateView>,
    node: NodeStateView,
)
    ensures
        domain_records(domain.domain, Seq::empty()).len() == 0,
        all_records(Seq::empty(), nodes).len() == 0,
        ({
            let before = domain_records(domain.domain, nodes);
            let after = domain_records(domain.domain, nodes.push(node));
            &&& after.len() == before.len() + node.ips.len()
            &&& after.take(before.len() as int) == before
            &&& forall|i: int|
                0 <= i < node.ips.len() ==> (#[trigger] after[before.len() + i]).address
                    == node.ips[i]
        }),
        all_records(domains.push(domain), nodes) == all_records(domains, nodes) + domain_records(
            domain.domain,
            nodes,
        ),
{
    assert(nodes.push(node).drop_last() =~= nodes);
    assert(domains.push(domain).drop_last() =~= domains);
    let before = domain_records(domain.domain, nodes);
    let after = domain_records(domain.domain, nodes.push(node));
    assert(after.take(before.len() as int) =~= before);
}

/// IPv4 addresses go to `A` records and IPv6 addresses to `AAAA` records.
pub proof fn records_are_typed_by_their_address(address: IpAddr)
    ensures
        address is V4 ==> type_for(address) == RecordType::A,
        address is V6 ==> type_for(address) == RecordType::Aaaa,
{
}

/// A record is replaced just if it is an `A` or `AAAA` record and its name is
/// the domain, written with a dot at its end or, where the domain does not end
/// with one itself, without.
pub proof fn address_records_of_the_domain_are_replaced(
    domain: Seq<char>,
    name: Seq<char>,
    kind: RecordType,
)
    ensures
        is_replaced(domain, name, kind) <==> (kind == RecordType::A || kind == RecordType::Aaaa) && (
        name == domain + seq!['.'] || name == domain && !(domain.len() > 0 && domain.last() == '.')),
{
    assert((domain + seq!['.']).drop_last() =~= domain);
    if name.len() > 0 && name.last() == '.' {
        assert(name.drop_last() + seq!['.'] =~= name);
    }
}

/// What is published under a domain is replaced when it is published again:
/// records do not pile up.
pub proof fn published_records_are_replaced(
    domain: Seq<char>,
    nodes: Seq<NodeStateView>,
    record: DnsRecordView,
)
    requires
        domain_records(domain, nodes).contains(record),
    ensures
        record.domain == domain,
        is_replaced(domain, record.domain + seq!['.'], type_for(record.address)),
{
    domains_have_the_records_of_all_nodes(domain, nodes, record);
    let i = choose|i: int|
        0 <= i < nodes.len() && node_records(domain, #[trigger] nodes[i]).contains(record);
    let k = node_records(domain, nodes[i]).index_of(record);
    assert(node_records(domain, nodes[i])[k] == record);
    assert((domain + seq!['.']).drop_last() == domain);
}

/// Records of other domains, and records of other types, are not replaced.
pub proof fn other_records_are_kept(domain: Seq<char>, name: Seq<char>, kind: RecordType)
    requires
        without_trailing_dot(name) != domain || kind == RecordType::Other,
    ensures
        !is_replaced(domain, name, kind),
{
}

/// The type of the record that holds an address.
pub fn record_type(address: IpAddr) -> (kind: RecordType)
    ensures
        kind == type_for(address),
{
    match address {
        IpAddr::V4(..) => RecordType::A,
        IpAddr::V6(..) => RecordType::Aaaa,
    }
}

/// Which of the records that a hosted zone has are replaced when records are
/// published under the domain, by their places, in order.
pub fn replaced_records(domain: &str, existing: &Vec<ExistingRecord>) -> (places: Vec<usize>)
    ensures
        forall|k: int|
            0 <= k < places@.len() ==> {
                &&& (#[trigger] places@[k]) < existing@.len()
                &&& is_replaced(
                    domain@,
                    existing@[places@[k] as int].name@,
                    existing@[places@[k] as int].kind,
                )
            },
        forall|k: int, l: int| 0 <= k < l < places@.len() ==> places@[k] < places@[l],
        forall|i: int|
            0 <= i < existing@.len() && is_replaced(
                domain@,
                (#[trigger] existing@[i]).name@,
                existing@[i].kind,
            ) ==> places@.contains(i as usize),
{
    let wanted = domain.to_owned();
    let mut places: Vec<usize> = Vec::new();
    for i in 0..existing.len()
        invariant
            wanted@ == domain@,
            forall|k: int|
                0 <= k < places@.len() ==> {
                    &&& (#[trigger] places@[k]) < i
                    &&& is_replaced(
                        domain@,
                        existing@[places@[k] as int].name@,
                        existing@[places@[k] as int].kind,
                    )
                },
            forall|k: int, l: int| 0 <= k < l < places@.len() ==> places@[k] < places@[l],
            forall|j: int|
                0 <= j < i && is_replaced(
                    domain@,
                    (#[trigger] existing@[j]).name@,
                    existing@[j].kind,
                ) ==> places@.contains(j as usize),
    {
        let name = remove_fqdn_trailing_dot(existing[i].name.as_str());
        let ghost before = places@;
        if existing[i].kind != RecordType::Other && name == wanted {
            places.push(i);
            assert(places@[before.len() as int] == i);
            assert forall|j: int|
                0 <= j < i && is_replaced(
                    domain@,
                    (#[trigger] existing@[j]).name@,
                    existing@[j].kind,
                ) implies places@.contains(j as usize) by {
                let k = before.index_of(j as usize);
                assert(places@[k] == j);
            }
        }
    }
    places
}

/// Appends the records of a node under a domain.
fn push_node_records(records: &mut Vec<DnsRecord>, domain: &String, node: &NodeState)
    ensures
        records_view(final(records)@) == records_view(old(records)@) + node_records(
            domain@,
            node@,
        ),
{
    let ghost start = records_view(records@);
    let ghost wanted = node_records(domain@, node@);
    for i in 0..node.ips.len()
        invariant
            wanted == node_records(domain@, node@),
            records_view(records@) == start + wanted.take(i as int),
    {
        let ghost before = records_view(records@);
        records.push(
            DnsRecord {
                domain: domain.clone(),
                node: node.name.clone(),
                address: node.ips[i],
                coordinates: node.coordinates,
            },
        );
        assert(records_view(records@) == before.push(wanted[i as int]));
        assert(wanted.take(i + 1) == wanted.take(i as int).push(wanted[i as int]));
        assert(records_view(records@) == start + wanted.take(i + 1));
    }
    assert(wanted.take(node.ips@.len() as int) == wanted);
}

impl DnsPublisher {
    /// The known nodes in the order in which their records are published.
    pub open spec fn listed(self) -> Seq<NodeStateView> {
        Seq::new(self.order().len(), |i: int| self.known()[self.order()[i]])
    }

    /// The records to publish: under each domain, those of all known nodes.
    pub fn records(&self) -> (records: Vec<DnsRecord>)
        ensures
            records_view(records@) == all_records(domains_view(self.domain_list()), self.listed()),
            self.order().no_duplicates(),
            self.order().to_set() == self.known().dom(),
            self.listed().len() == self.order().len(),
            forall|i: int|
                0 <= i < self.order().len() ==> #[trigger] self.listed()[i] == self.known()[self.order()[i]],
    {
        let nodes = self.nodes();
        let domains = self.domains();
        let ghost listed = self.listed();
        let ghost all = domains_view(domains@);
        let count = nodes.len();
        assert(self.known().dom() =~= nodes@.dom());
        let mut records: Vec<DnsRecord> = Vec::new();
        for d in 0..domains.len()
            invariant
                count == nodes.keys().len(),
                listed == self.listed(),
                nodes.keys() == self.order(),
                nodes@.map_values(|state: NodeState| state@) == self.known(),
                all == domains_view(domains@),
                records_view(records@) == all_records(all.take(d as int), listed),
        {
            let ghost start = records_view(records@);
            let domain = &domains[d].domain;
            for n in 0..count
                invariant
                    count == nodes.keys().len(),
                    listed == self.listed(),
                    nodes.keys() == self.order(),
                    nodes@.map_values(|state: NodeState| state@) == self.known(),
                    records_view(records@) == start + domain_records(
                        domain@,
                        listed.take(n as int),
                    ),
            {
                let node = nodes.value_at(n);
                assert(node@ == listed[n as int]);
                assert(listed.take(n + 1).drop_last() == listed.take(n as int));
                push_node_records(&mut records, domain, node);
                assert(records_view(records@) == start + domain_records(
                    domain@,
                    listed.take(n + 1),
                ));
            }
            assert(listed.take(count as int) == listed);
            assert(all.take(d + 1).drop_last() == all.take(d as int));
            assert(all.take(d + 1).last().domain == domain@);
        }
        assert(all.take(domains@.len() as int) == all);
        records
    }
}

} // verus!
