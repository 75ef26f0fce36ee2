//! Following the nodes of a cluster, and deciding when to publish.

use crate::coordinates::CoordinateNumbers;
use crate::error::{Error, ErrorView};
use crate::hosted_zone::HostedZoneDomain;
use crate::name_map::NameMap;
use crate::node::{Node, NodeView};
use crate::node_state::{
    are_coordinate_texts, node_coordinate_texts, node_state, NodeState, NodeStateView,
};
use crate::text::split_once;
use vstd::prelude::*;

verus! {

/// What a watch on the nodes of a cluster reports. It starts, and starts
/// again after a gap, with `Init`, then `InitApply` for each node there is,
/// then `InitDone`. After that each change is reported as it comes.
pub enum NodeEvent {
    Apply(Node),
    InitApply(Node),
    Delete(Node),
    Init,
    InitDone,
}

/// A `NodeEvent` by its texts.
pub ghost enum NodeEventView {
    Apply(NodeView),
    InitApply(NodeView),
    Delete(NodeView),
    Init,
    InitDone,
}

impl View for NodeEvent {
    type V = NodeEventView;

    open spec fn view(&self) -> NodeEventView {
        match *self {
            NodeEvent::Apply(node) => NodeEventView::Apply(node@),
            NodeEvent::InitApply(node) => NodeEventView::InitApply(node@),
            NodeEvent::Delete(node) => NodeEventView::Delete(node@),
            NodeEvent::Init => NodeEventView::Init,
            NodeEvent::InitDone => NodeEventView::InitDone,
        }
    }
}

impl NodeEventView {
    /// The node that is added or changed.
    pub open spec fn applied(self) -> Option<NodeView> {
        match self {
            NodeEventView::Apply(node) => Some(node),
            NodeEventView::InitApply(node) => Some(node),
            _ => None,
        }
    }

    /// The name of the node that the event is about.
    pub open spec fn subject(self) -> Option<Seq<char>> {
        match self {
            NodeEventView::Apply(node) => node.name,
            NodeEventView::InitApply(node) => node.name,
            NodeEventView::Delete(node) => node.name,
            _ => None,
        }
    }

    /// Whether all there was to report has been reported with this event.
    pub open spec fn is_current(self) -> bool {
        match self {
            NodeEventView::Apply(_) => true,
            NodeEventView::Delete(_) => true,
            NodeEventView::InitDone => true,
            NodeEventView::Init => false,
            NodeEventView::InitApply(_) => false,
        }
    }
}

impl NodeEvent {
    /// Whether all there was to report has been reported with this event.
    pub fn is_current(&self) -> (current: bool)
        ensures
            current == self@.is_current(),
            current == (self is Apply || self is Delete || self is InitDone),
    {
        match self {
            NodeEvent::Apply(_) | NodeEvent::Delete(_) | NodeEvent::InitDone => true,
            NodeEvent::Init | NodeEvent::InitApply(_) => false,
        }
    }

    /// The two texts of the coordinates of the node that is added or changed:
    /// those that are to be read as numbers.
    pub fn coordinate_texts(&self) -> (parts: Option<(String, String)>)
        ensures
            match self@.applied() {
                Some(node) => match (
                    node.annotation(crate::node::COORDINATES_ANNOTATION@),
                    parts,
                ) {
                    (Some(text), Some(p)) => split_once(text, ',') == Some((p.0@, p.1@)),
                    (Some(text), None) => split_once(text, ',') is None,
                    (None, p) => p is None,
                },
                None => parts is None,
            },
            match self {
                NodeEvent::Apply(node) => are_coordinate_texts(node@, parts),
                NodeEvent::InitApply(node) => are_coordinate_texts(node@, parts),
                _ => parts is None,
            },
    {
        match self {
            NodeEvent::Apply(node) => node_coordinate_texts(node),
            NodeEvent::InitApply(node) => node_coordinate_texts(node),
            _ => None,
        }
    }
}

/// The nodes that have DNS records, by name.
pub type KnownNodes = Map<Seq<char>, NodeStateView>;

/// What an event makes of the known nodes, and whether that is a change. A
/// node without a name, or one that cannot be read, is an error and changes
/// nothing.
pub open spec fn handled(
    known: KnownNodes,
    event: NodeEventView,
    numbers: CoordinateNumbers,
) -> (KnownNodes, Result<bool, ErrorView>) {
    match event {
        NodeEventView::Apply(node) => applied(known, node, numbers),
        NodeEventView::InitApply(node) => applied(known, node, numbers),
        NodeEventView::Delete(node) => match node.name {
            Some(name) => (known.remove(name), Ok(known.contains_key(name))),
            None => (known, Err(ErrorView::NamelessDelete)),
        },
        NodeEventView::Init => (known, Ok(false)),
        NodeEventView::InitDone => (known, Ok(false)),
    }
}

/// What a new or changed node makes of the known nodes.
pub open spec fn applied(
    known: KnownNodes,
    node: NodeView,
    numbers: CoordinateNumbers,
) -> (KnownNodes, Result<bool, ErrorView>) {
    match node.name {
        Some(name) => match node_state(node, numbers) {
            Ok(Some(state)) => if known.contains_key(name) && known[name].equals(state) {
                (known, Ok(false))
            } else {
                (known.insert(name, state), Ok(true))
            },
            Ok(None) => (known.remove(name), Ok(known.contains_key(name))),
            Err(e) => (known, Err(e)),
        },
        None => (known, Err(ErrorView::NamelessApply)),
    }
}

/// Whether every known node stands under its own name and has addresses.
pub open spec fn is_consistent(known: KnownNodes) -> bool {
    forall|name: Seq<char>| #[trigger]
        known.contains_key(name) ==> known[name].name == name && known[name].ips.len() > 0
}

/// The outcome of handling an event, by its texts.
pub open spec fn result_view(result: Result<bool, Error>) -> Result<bool, ErrorView> {
    match result {
        Ok(changed) => Ok(changed),
        Err(e) => Err(e@),
    }
}

/// The nodes that have DNS records, and the domains that they are published
/// for.
pub struct DnsPublisher {
    nodes: NameMap<NodeState>,
    domains: Vec<HostedZoneDomain>,
}

impl DnsPublisher {
    /// The known nodes.
    pub closed spec fn known(self) -> KnownNodes {
        self.nodes@.map_values(|state: NodeState| state@)
    }

    /// The names of the known nodes in the order in which they are listed.
    pub closed spec fn order(self) -> Seq<Seq<char>> {
        self.nodes.keys()
    }

    /// The domains.
    pub closed spec fn domain_list(self) -> Seq<HostedZoneDomain> {
        self.domains@
    }

    #[verifier::type_invariant]
    spec fn knows_consistently(self) -> bool {
        is_consistent(self.known())
    }

    /// Knows no node yet.
    pub fn new(domains: Vec<HostedZoneDomain>) -> (publisher: DnsPublisher)
        ensures
            publisher.known() == Map::<Seq<char>, NodeStateView>::empty(),
            publisher.domain_list() == domains@,
    {
        let nodes: NameMap<NodeState> = NameMap::new();
        assert(nodes@.map_values(|state: NodeState| state@) =~= Map::<
            Seq<char>,
            NodeStateView,
        >::empty());
        DnsPublisher { nodes, domains }
    }

    /// The known nodes.
    pub fn nodes(&self) -> (nodes: &NameMap<NodeState>)
        ensures
            nodes@.map_values(|state: NodeState| state@) == self.known(),
            nodes.keys() == self.order(),
            is_consistent(self.known()),
    {
        proof {
            use_type_invariant(self);
        }
        &self.nodes
    }

    /// The domains.
    pub fn domains(&self) -> (domains: &Vec<HostedZoneDomain>)
        ensures
            domains@ == self.domain_list(),
    {
        &self.domains
    }

    /// Takes an event in, given what the texts of the coordinates are as
    /// numbers, and says whether a known node changed.
    pub fn handle_event(&mut self, event: &NodeEvent, numbers: CoordinateNumbers) -> (result:
        Result<bool, Error>)
        ensures
            handled(old(self).known(), event@, numbers) == (
                final(self).known(),
                result_view(result),
            ),
            final(self).domain_list() == old(self).domain_list(),
    {
        match event {
            NodeEvent::Apply(node) => self.apply(node, numbers),
            NodeEvent::InitApply(node) => self.apply(node, numbers),
            NodeEvent::Delete(node) => match &node.name {
                Some(name) => Ok(self.forget(name.as_str())),
                None => Err(Error::NamelessDelete),
            },
            NodeEvent::Init | NodeEvent::InitDone => Ok(false),
        }
    }

    /// Takes a new or changed node in.
    fn apply(&mut self, node: &Node, numbers: CoordinateNumbers) -> (result: Result<bool, Error>)
        ensures
            applied(old(self).known(), node@, numbers) == (
                final(self).known(),
                result_view(result),
            ),
            final(self).domain_list() == old(self).domain_list(),
    {
        let name = match &node.name {
            Some(name) => name,
            None => {
                return Err(Error::NamelessApply);
            },
        };
        let state = match NodeState::from_node(node, numbers) {
            Ok(state) => state,
            Err(e) => {
                return Err(e);
            },
        };
        match state {
            Some(state) => {
                let unchanged = match self.nodes.get(name.as_str()) {
                    Some(old_state) => *old_state == state,
                    None => false,
                };
                if unchanged {
                    return Ok(false);
                }
                proof {
                    read_state_is_named_and_addressed(node@, numbers);
                }
                self.keep(name.clone(), state);
                Ok(true)
            },
            None => Ok(self.forget(name.as_str())),
        }
    }

    /// Keeps a node in this state.
    fn keep(&mut self, name: String, state: NodeState)
        requires
            state@.name == name@,
            state@.ips.len() > 0,
        ensures
            final(self).known() == old(self).known().insert(name@, state@),
            final(self).domain_list() == old(self).domain_list(),
    {
        proof {
            use_type_invariant(&*self);
        }
        let ghost before = self.known();
        let ghost key = name@;
        let ghost now = state@;
        let mut nodes: NameMap<NodeState> = NameMap::new();
        assert(nodes@.map_values(|state: NodeState| state@) =~= Map::<
            Seq<char>,
            NodeStateView,
        >::empty());
        std::mem::swap(&mut nodes, &mut self.nodes);
        nodes.insert(name, state);
        assert(nodes@.map_values(|state: NodeState| state@) =~= before.insert(key, now));
        self.nodes = nodes;
    }

    /// Drops a node, and says whether it was known.
    fn forget(&mut self, name: &str) -> (removed: bool)
        ensures
            removed == old(self).known().contains_key(name@),
            final(self).known() == old(self).known().remove(name@),
            final(self).domain_list() == old(self).domain_list(),
    {
        proof {
            use_type_invariant(&*self);
        }
        let ghost before = self.known();
        let mut nodes: NameMap<NodeState> = NameMap::new();
        assert(nodes@.map_values(|state: NodeState| state@) =~= Map::<
            Seq<char>,
            NodeStateView,
        >::empty());
        std::mem::swap(&mut nodes, &mut self.nodes);
        let removed = nodes.remove(name);
        assert(nodes@.map_values(|state: NodeState| state@) =~= before.remove(name@));
        self.nodes = nodes;
        removed
    }
}

/// What is read of a node bears its name and has addresses.
pub proof fn read_state_is_named_and_addressed(node: NodeView, numbers: CoordinateNumbers)
    ensures
        node_state(node, numbers) matches Ok(Some(state)) ==> Some(state.name) == node.name
            && state.ips.len() > 0,
{
    if node_state(node, numbers) matches Ok(Some(_)) {
        let list = node.annotation(crate::node::NODE_IPS_ANNOTATION@)->0;
        crate::text::split_pieces_are_free(list, ',');
    }
}

} // verus!
