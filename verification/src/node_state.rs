//! What a node's DNS records are made of.

use crate::coordinates::{
    coordinate_texts, coordinates_are_the_numbers_that_were_read, coordinates_of,
    CoordinateNumbers, Coordinates,
};
use crate::error::{Error, ErrorView};
use crate::address::{address, IpAddr};
use crate::node::{
    nodes_serve_by_their_first_ready_condition, Node, NodeView, COORDINATES_ANNOTATION,
    NODE_IPS_ANNOTATION,
};
use crate::node_ips::{parse_ip_list, read_addresses_are_those_of_the_items, read_ip_list};
use crate::text::{split, split_once};
use vstd::prelude::*;

verus! {

/// What a node's DNS records are made of: its name, its addresses and where
/// it is.
#[derive(Debug)]
pub struct NodeState {
    pub name: String,
    pub ips: Vec<IpAddr>,
    pub coordinates: Option<Coordinates>,
}

/// A `NodeState` by its texts.
#[verifier::ext_equal]
pub ghost struct NodeStateView {
    pub name: Seq<char>,
    pub ips: Seq<IpAddr>,
    pub coordinates: Option<Coordinates>,
}

impl View for NodeState {
    type V = NodeStateView;

    open spec fn view(&self) -> NodeStateView {
        NodeStateView { name: self.name@, ips: self.ips@, coordinates: self.coordinates }
    }
}

impl NodeStateView {
    /// Whether the states compare equal: the same name, the same addresses in
    /// the same order, and coordinates that compare equal or are both
    /// missing.
    pub open spec fn equals(self, other: NodeStateView) -> bool {
        &&& self.name == other.name
        &&& self.ips == other.ips
        &&& match (self.coordinates, other.coordinates) {
            (Some(a), Some(b)) => a.equals(b),
            (None, None) => true,
            _ => false,
        }
    }

    /// Whether the coordinates, if there are any, are numbers.
    pub open spec fn has_numbers(self) -> bool {
        self.coordinates matches Some(c) ==> c.are_numbers()
    }
}

/// Whether the addresses are the same, in the same order.
fn same_ips(a: &Vec<IpAddr>, b: &Vec<IpAddr>) -> (same: bool)
    ensures
        same == (a@ == b@),
{
    if a.len() != b.len() {
        return false;
    }
    for i in 0..a.len()
        invariant
            a@.len() == b@.len(),
            forall|k: int| 0 <= k < i ==> a@[k] == b@[k],
    {
        if a[i] != b[i] {
            return false;
        }
    }
    assert(a@ == b@);
    true
}

impl PartialEq for NodeState {
    fn eq(&self, other: &NodeState) -> (equal: bool) {
        self.name == other.name && same_ips(&self.ips, &other.ips) && match (
            self.coordinates,
            other.coordinates,
        ) {
            (Some(a), Some(b)) => a == b,
            (None, None) => true,
            _ => false,
        }
    }
}

impl vstd::std_specs::cmp::PartialEqSpecImpl for NodeState {
    open spec fn obeys_eq_spec() -> bool {
        true
    }

    open spec fn eq_spec(&self, other: &NodeState) -> bool {
        self@.equals(other@)
    }
}

/// The coordinates of a node: none without the annotation, an error if it
/// holds something else.
pub open spec fn node_coordinates(node: NodeView, numbers: CoordinateNumbers) -> Result<
    Option<Coordinates>,
    ErrorView,
> {
    match node.annotation(COORDINATES_ANNOTATION@) {
        Some(text) => match coordinates_of(text, numbers) {
            Some(c) => Ok(Some(c)),
            None => Err(ErrorView::InvalidCoordinates { text }),
        },
        None => Ok(None),
    }
}

/// What a node's DNS records are made of. It has none if it has no name, does
/// not serve, or lists no address.
pub open spec fn node_state(node: NodeView, numbers: CoordinateNumbers) -> Result<
    Option<NodeStateView>,
    ErrorView,
> {
    match (node.name, node.annotation(NODE_IPS_ANNOTATION@)) {
        (Some(name), Some(list)) => if !node.serves() || list.len() == 0 {
            Ok(None)
        } else {
            match read_ip_list(list) {
                Ok(ips) => match node_coordinates(node, numbers) {
                    Ok(coordinates) => Ok(Some(NodeStateView { name, ips, coordinates })),
                    Err(e) => Err(e),
                },
                Err(ip) => Err(ErrorView::InvalidIp { node: name, ip }),
            }
        },
        _ => Ok(None),
    }
}

/// States that compare equal have the same name and the same addresses in the
/// same order, and either both have no coordinates or both have coordinates
/// that compare equal. States of which this holds compare equal.
pub proof fn equal_states_have_the_same_addresses(a: NodeStateView, b: NodeStateView)
    ensures
        a.equals(b) ==> a.name == b.name && a.ips == b.ips,
        a.equals(b) ==> (a.coordinates is None <==> b.coordinates is None),
        a.equals(b) ==> (a.coordinates matches Some(x) ==> x.equals(b.coordinates->0)),
        a.name == b.name && a.ips == b.ips && a.coordinates is None && b.coordinates is None
            ==> a.equals(b),
        a.name == b.name && a.ips == b.ips && (a.coordinates matches Some(x) && b.coordinates
            matches Some(y) && x.equals(y)) ==> a.equals(b),
{
}

/// What a node's DNS records are made of: its own name, an address for each
/// item of its list and as that item writes it, and the coordinates that were
/// read of its other annotation.
pub proof fn states_hold_what_the_node_says(node: NodeView, numbers: CoordinateNumbers)
    ensures
        node_state(node, numbers) matches Ok(Some(state)) ==> {
            let list = node.annotations["kube-node-dns.kyle.space/node-ips"@];
            let place = "kube-node-dns.kyle.space/aws-geoproximity-coordinates"@;
            &&& node.name == Some(state.name)
            &&& node.annotations.contains_key("kube-node-dns.kyle.space/node-ips"@)
            &&& state.ips.len() == split(list, ',').len()
            &&& forall|i: int|
                0 <= i < state.ips.len() ==> address(split(list, ',')[i]) == Some(
                    #[trigger] state.ips[i],
                )
            &&& state.coordinates is Some <==> node.annotations.contains_key(place)
            &&& state.coordinates matches Some(c) ==> {
                &&& numbers.latitude == Some(c.latitude)
                &&& numbers.longitude == Some(c.longitude)
                &&& node.annotations[place].contains(',')
            }
        },
{
    if node_state(node, numbers) matches Ok(Some(_)) {
        let list = node.annotations[NODE_IPS_ANNOTATION@];
        read_addresses_are_those_of_the_items(list);
        if node.annotations.contains_key(COORDINATES_ANNOTATION@) {
            coordinates_are_the_numbers_that_were_read(
                node.annotations[COORDINATES_ANNOTATION@],
                numbers,
            );
        }
    }
}

/// A node has no records just if it has no name, lists no address, is cordoned,
/// or is not ready by its first `Ready` condition. Nothing else of it is looked
/// at then.
pub proof fn nodes_have_records_unless_they_are_unfit(node: NodeView, numbers: CoordinateNumbers)
    ensures
        node_state(node, numbers) == Ok::<Option<NodeStateView>, ErrorView>(None) <==> {
            ||| node.name is None
            ||| !node.annotations.contains_key("kube-node-dns.kyle.space/node-ips"@)
            ||| node.annotations["kube-node-dns.kyle.space/node-ips"@].len() == 0
            ||| node.unschedulable
            ||| !exists|i: int|
                {
                    &&& 0 <= i < node.conditions.len()
                    &&& (#[trigger] node.conditions[i]).kind == "Ready"@
                    &&& node.conditions[i].status == "True"@
                    &&& forall|j: int|
                        0 <= j < i ==> (#[trigger] node.conditions[j]).kind != "Ready"@
                }
        },
{
    nodes_serve_by_their_first_ready_condition(node);
}

/// A node that cannot be read is one whose list has an item that is no address,
/// of which the first is reported with the node's name, or one whose addresses
/// can be read and whose coordinates are not two numbers with a comma between
/// them, which are reported as they stand.
pub proof fn nodes_are_unreadable_for_a_reason(node: NodeView, numbers: CoordinateNumbers)
    ensures
        node_state(node, numbers) matches Err(e) ==> {
            let items = split(node.annotations["kube-node-dns.kyle.space/node-ips"@], ',');
            let place = "kube-node-dns.kyle.space/aws-geoproximity-coordinates"@;
            match e {
                ErrorView::InvalidIp { node: name, ip } => {
                    &&& node.name == Some(name)
                    &&& exists|i: int|
                        {
                            &&& 0 <= i < items.len()
                            &&& #[trigger] items[i] == ip
                            &&& address(ip) is None
                            &&& forall|j: int| 0 <= j < i ==> address(#[trigger] items[j]) is Some
                        }
                },
                ErrorView::InvalidCoordinates { text } => {
                    &&& node.annotations.contains_key(place)
                    &&& text == node.annotations[place]
                    &&& !text.contains(',') || numbers.latitude is None || numbers.longitude is None
                    &&& forall|i: int| 0 <= i < items.len() ==> address(#[trigger] items[i]) is Some
                },
                _ => false,
            }
        },
{
    if node_state(node, numbers) is Err {
        let list = node.annotations[NODE_IPS_ANNOTATION@];
        read_addresses_are_those_of_the_items(list);
        if let Ok(ips) = read_ip_list(list) {
            assert forall|i: int| 0 <= i < split(list, ',').len() implies address(
                #[trigger] split(list, ',')[i],
            ) is Some by {
                assert(address(split(list, ',')[i]) == Some(ips[i]));
            }
            coordinates_are_the_numbers_that_were_read(
                node.annotations[COORDINATES_ANNOTATION@],
                numbers,
            );
        }
    }
}

/// The outcome of reading a node, by its texts.
pub open spec fn outcome_view(outcome: Result<Option<NodeState>, Error>) -> Result<
    Option<NodeStateView>,
    ErrorView,
> {
    match outcome {
        Ok(Some(state)) => Ok(Some(state@)),
        Ok(None) => Ok(None),
        Err(e) => Err(e@),
    }
}

impl NodeState {
    /// Reads what a node's DNS records are made of, given what the texts of
    /// its coordinates are as numbers.
    pub fn from_node(node: &Node, numbers: CoordinateNumbers) -> (outcome: Result<
        Option<NodeState>,
        Error,
    >)
        ensures
            outcome_view(outcome) == node_state(node@, numbers),
    {
        let name = match &node.name {
            Some(name) => name,
            None => {
                return Ok(None);
            },
        };
        let list = match node.annotation(NODE_IPS_ANNOTATION) {
            Some(list) => list,
            None => {
                return Ok(None);
            },
        };
        if !node.serves() || list.as_str().is_empty() {
            return Ok(None);
        }
        let ips = match parse_ip_list(list.as_str()) {
            Ok(ips) => ips,
            Err(ip) => {
                return Err(Error::InvalidIp { node: name.clone(), ip });
            },
        };
        let coordinates = match node.annotation(COORDINATES_ANNOTATION) {
            Some(text) => match Coordinates::from_str(text.as_str(), numbers) {
                Ok(c) => Some(c),
                Err(e) => {
                    return Err(e);
                },
            },
            None => None,
        };
        Ok(Some(NodeState { name: name.clone(), ips, coordinates }))
    }
}

/// Whether the texts are those before and behind the first comma of a node's
/// coordinates; there are none just if it has no coordinates with a comma.
pub open spec fn are_coordinate_texts(node: NodeView, parts: Option<(String, String)>) -> bool {
    let place = "kube-node-dns.kyle.space/aws-geoproximity-coordinates"@;
    &&& parts is Some <==> node.annotations.contains_key(place) && node.annotations[place].contains(
        ',',
    )
    &&& parts matches Some(p) ==> p.0@ + seq![','] + p.1@ == node.annotations[place]
        && !p.0@.contains(',')
}

/// The two texts of a node's coordinates, if it has coordinates with a comma:
/// those that are to be read as numbers.
pub fn node_coordinate_texts(node: &Node) -> (parts: Option<(String, String)>)
    ensures
        match (node@.annotation(COORDINATES_ANNOTATION@), parts) {
            (Some(text), Some(p)) => split_once(text, ',') == Some((p.0@, p.1@)),
            (Some(text), None) => split_once(text, ',') is None,
            (None, p) => p is None,
        },
        are_coordinate_texts(node@, parts),
{
    match node.annotation(COORDINATES_ANNOTATION) {
        Some(text) => coordinate_texts(text.as_str()),
        None => None,
    }
}

} // verus!
