//! A Kubernetes node, as far as its DNS records depend on it.

use crate::name_map::NameMap;
use crate::text::text_view;
use vstd::prelude::*;

verus! {

/// The annotation that lists a node's globally reachable addresses.
pub const NODE_IPS_ANNOTATION: &'static str = "kube-node-dns.kyle.space/node-ips";

/// The annotation that holds a node's coordinates, as `<lat>,<lon>`.
pub const COORDINATES_ANNOTATION: &'static str = "kube-node-dns.kyle.space/aws-geoproximity-coordinates";

/// The type of the condition that tells whether a node is ready.
pub const READY_CONDITION: &'static str = "Ready";

/// The status of a condition that holds.
pub const CONDITION_TRUE: &'static str = "True";

/// A condition of a node.
pub struct NodeCondition {
    pub kind: String,
    pub status: String,
}

/// A node. It is unschedulable if it is cordoned.
pub struct Node {
    pub name: Option<String>,
    pub annotations: Option<NameMap<String>>,
    pub unschedulable: bool,
    pub conditions: Vec<NodeCondition>,
}

/// A `NodeCondition` by its texts.
pub ghost struct NodeConditionView {
    pub kind: Seq<char>,
    pub status: Seq<char>,
}

impl View for NodeCondition {
    type V = NodeConditionView;

    open spec fn view(&self) -> NodeConditionView {
        NodeConditionView { kind: self.kind@, status: self.status@ }
    }
}

/// A `Node` by its texts. A node without annotations is one whose annotations
/// are empty.
#[verifier::ext_equal]
pub ghost struct NodeView {
    pub name: Option<Seq<char>>,
    pub annotations: Map<Seq<char>, Seq<char>>,
    pub unschedulable: bool,
    pub conditions: Seq<NodeConditionView>,
}

/// The annotations by their texts.
pub open spec fn annotations_view(annotations: Option<NameMap<String>>) -> Map<
    Seq<char>,
    Seq<char>,
> {
    match annotations {
        Some(map) => map@.map_values(|value: String| value@),
        None => Map::empty(),
    }
}

impl View for Node {
    type V = NodeView;

    open spec fn view(&self) -> NodeView {
        NodeView {
            name: text_view(self.name),
            annotations: annotations_view(self.annotations),
            unschedulable: self.unschedulable,
            conditions: Seq::new(self.conditions@.len(), |i: int| self.conditions@[i]@),
        }
    }
}

impl NodeView {
    /// The text of an annotation, if the node has it.
    pub open spec fn annotation(self, name: Seq<char>) -> Option<Seq<char>> {
        if self.annotations.contains_key(name) {
            Some(self.annotations[name])
        } else {
            None
        }
    }

    /// Whether the condition at `i` is the one that tells readiness: the first
    /// of its type.
    pub open spec fn tells_readiness(self, i: int) -> bool {
        &&& 0 <= i < self.conditions.len()
        &&& self.conditions[i].kind == READY_CONDITION@
        &&& forall|j: int|
            0 <= j < i ==> (#[trigger] self.conditions[j]).kind != READY_CONDITION@
    }

    /// Whether the node is ready: it has a `Ready` condition, which holds.
    pub open spec fn is_ready(self) -> bool {
        exists|i: int| #[trigger]
            self.tells_readiness(i) && self.conditions[i].status == CONDITION_TRUE@
    }

    /// Whether the node may have DNS records: it is ready and not cordoned.
    pub open spec fn serves(self) -> bool {
        self.is_ready() && !self.unschedulable
    }
}

/// An annotation of a node is what its map of annotations has under the name.
pub proof fn annotations_are_looked_up_by_name(node: NodeView, name: Seq<char>)
    ensures
        node.annotation(name) is Some <==> node.annotations.contains_key(name),
        node.annotation(name) matches Some(text) ==> text == node.annotations[name],
{
}

/// A node serves just if it is not cordoned and, among its conditions, the
/// first one of type `Ready` has the status `True`.
pub proof fn nodes_serve_by_their_first_ready_condition(node: NodeView)
    ensures
        node.is_ready() <==> exists|i: int|
            {
                &&& 0 <= i < node.conditions.len()
                &&& (#[trigger] node.conditions[i]).kind == "Ready"@
                &&& node.conditions[i].status == "True"@
                &&& forall|j: int| 0 <= j < i ==> (#[trigger] node.conditions[j]).kind != "Ready"@
            },
        node.serves() <==> !node.unschedulable && node.is_ready(),
{
    if exists|i: int|
        {
            &&& 0 <= i < node.conditions.len()
            &&& (#[trigger] node.conditions[i]).kind == "Ready"@
            &&& node.conditions[i].status == "True"@
            &&& forall|j: int| 0 <= j < i ==> (#[trigger] node.conditions[j]).kind != "Ready"@
        } {
        let i = choose|i: int|
            {
                &&& 0 <= i < node.conditions.len()
                &&& (#[trigger] node.conditions[i]).kind == "Ready"@
                &&& node.conditions[i].status == "True"@
                &&& forall|j: int| 0 <= j < i ==> (#[trigger] node.conditions[j]).kind != "Ready"@
            };
        assert(node.tells_readiness(i));
    }
    if node.is_ready() {
        let i = choose|i: int| #[trigger]
            node.tells_readiness(i) && node.conditions[i].status == CONDITION_TRUE@;
        assert(node.conditions[i].kind == "Ready"@);
    }
}

impl Node {
    /// The text of an annotation, if the node has it.
    pub fn annotation(&self, name: &str) -> (text: Option<&String>)
        ensures
            match text {
                Some(t) => self@.annotation(name@) == Some(t@),
                None => self@.annotation(name@) is None,
            },
            text is Some <==> self@.annotations.contains_key(name@),
            text matches Some(t) ==> t@ == self@.annotations[name@],
    {
        match &self.annotations {
            Some(map) => map.get(name),
            None => None,
        }
    }

    /// Whether the node is ready.
    pub fn is_ready(&self) -> (ready: bool)
        ensures
            ready == self@.is_ready(),
    {
        let kind = READY_CONDITION.to_owned();
        let holds = CONDITION_TRUE.to_owned();
        let mut i: usize = 0;
        while i < self.conditions.len()
            invariant
                kind@ == READY_CONDITION@,
                holds@ == CONDITION_TRUE@,
                i <= self.conditions@.len(),
                forall|j: int|
                    0 <= j < i ==> (#[trigger] self@.conditions[j]).kind != READY_CONDITION@,
            decreases self.conditions@.len() - i,
        {
            if self.conditions[i].kind == kind {
                let ready = self.conditions[i].status == holds;
                proof {
                    assert(self@.conditions[i as int] == self.conditions@[i as int]@);
                    assert(self@.tells_readiness(i as int));
                    assert forall|k: int| #[trigger] self@.tells_readiness(k) implies k == i by {
                        if k < i {
                            assert(self@.conditions[k].kind != READY_CONDITION@);
                        } else if i < k {
                            assert(self@.conditions[i as int].kind != READY_CONDITION@);
                        }
                    }
                }
                return ready;
            }
            assert(self@.conditions[i as int] == self.conditions@[i as int]@);
            i = i + 1;
        }
        false
    }

    /// Whether the node may have DNS records.
    pub fn serves(&self) -> (serves: bool)
        ensures
            serves == self@.serves(),
    {
        !self.unschedulable && self.is_ready()
    }
}

} // verus!
