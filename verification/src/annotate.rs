//! Writing a node's annotations.

use crate::address::IpAddr;
use crate::coordinates::CoordinateNumbers;
use crate::error::{Error, ErrorView};
use crate::name_map::NameMap;
use crate::node::{Node, NodeView, COORDINATES_ANNOTATION, NODE_IPS_ANNOTATION};
use crate::node_ips::{
    are_found, ip_list, ip_list_text, list_is_read_back, on_interface, Interface,
};
use crate::node_state::{node_coordinates, node_state, NodeStateView};
use crate::reach::globally_reachable;
use crate::text::text_view;
use vstd::prelude::*;

verus! {

/// The name under which the annotations are written.
pub const FIELD_MANAGER_NAME: &'static str = "kube-node-annotate-ips";

/// How often a write that failed is tried again.
pub const MAX_RETRIES: u32 = 10;

/// How long to wait before a write is tried again, in seconds.
pub const RETRY_DELAY_SECONDS: u64 = 3;

/// Annotations are written under the name by which their owner is known.
pub proof fn annotations_are_written_under_one_name()
    ensures
        FIELD_MANAGER_NAME@ == "kube-node-annotate-ips"@,
{
}

impl NodeView {
    /// The node with an annotation set.
    pub open spec fn with_annotation(self, annotation: Seq<char>, value: Seq<char>) -> NodeView {
        NodeView { annotations: self.annotations.insert(annotation, value), ..self }
    }
}

/// Sets an annotation of a node, and says whether that changed it.
pub fn set_annotation(node: &mut Node, annotation: &str, value: &str) -> (changed: bool)
    ensures
        changed == (old(node)@.annotation(annotation@) != Some(value@)),
        !changed ==> *final(node) == *old(node),
        final(node)@ == old(node)@.with_annotation(annotation@, value@),
        changed == !(old(node)@.annotations.contains_key(annotation@)
            && old(node)@.annotations[annotation@] == value@),
        final(node)@.annotations == old(node)@.annotations.insert(annotation@, value@),
        final(node).name == old(node).name,
        final(node).unschedulable == old(node).unschedulable,
        final(node).conditions == old(node).conditions,
{
    let wanted = value.to_owned();
    let unchanged = match node.annotation(annotation) {
        Some(current) => *current == wanted,
        None => false,
    };
    let ghost before = node@;
    if unchanged {
        assert(before.annotations.insert(annotation@, value@) =~= before.annotations);
        return false;
    }
    let mut map: NameMap<String> = match node.annotations.take() {
        Some(map) => map,
        None => NameMap::new(),
    };
    assert(map@.map_values(|v: String| v@) =~= before.annotations);
    map.insert(annotation.to_owned(), wanted);
    assert(map@.map_values(|v: String| v@) =~= before.annotations.insert(annotation@, value@));
    node.annotations = Some(map);
    true
}

/// Which annotations of a node are written: the one with its addresses, and
/// the one with its name.
pub struct AnnotationTargets {
    pub ips: Option<String>,
    pub node_name: Option<String>,
}

impl AnnotationTargets {
    /// The annotations that were asked for. If none was, the addresses go to
    /// their usual annotation.
    pub fn new(ips: Option<String>, node_name: Option<String>) -> (targets: AnnotationTargets)
        ensures
            text_view(targets.node_name) == text_view(node_name),
            text_view(targets.ips) == if ips is None && node_name is None {
                Some(NODE_IPS_ANNOTATION@)
            } else {
                text_view(ips)
            },
    {
        match (&ips, &node_name) {
            (None, None) => AnnotationTargets {
                ips: Some(NODE_IPS_ANNOTATION.to_owned()),
                node_name,
            },
            _ => AnnotationTargets { ips, node_name },
        }
    }
}

/// Which annotations were written, and whether each of them changed.
pub struct AnnotationReport {
    pub ips: Option<bool>,
    pub node_name: Option<bool>,
}

impl AnnotationReport {
    /// Whether any annotation changed: whether there is something to write.
    pub fn changed(&self) -> (changed: bool)
        ensures
            changed == (self.ips == Some(true) || self.node_name == Some(true)),
    {
        match (self.ips, self.node_name) {
            (Some(true), _) | (_, Some(true)) => true,
            _ => false,
        }
    }
}

/// A node with its annotations set, and what that changed.
pub struct AnnotatedNode {
    pub node: Node,
    pub report: AnnotationReport,
}

/// A node with an annotation set, if there is one to set, and whether that
/// changes it.
pub open spec fn annotated(node: NodeView, annotation: Option<Seq<char>>, value: Seq<char>) -> (
    NodeView,
    Option<bool>,
) {
    match annotation {
        Some(a) => (node.with_annotation(a, value), Some(node.annotation(a) != Some(value))),
        None => (node, None),
    }
}

/// A node with the annotation for its addresses set, and then that for its
/// name, as far as there are such, and whether each of them changes it.
pub open spec fn updated(
    node: NodeView,
    ips: Option<Seq<char>>,
    list: Seq<char>,
    node_name: Option<Seq<char>>,
    name: Seq<char>,
) -> (NodeView, Option<bool>, Option<bool>) {
    let (first, ips_changed) = annotated(node, ips, list);
    let (second, name_changed) = annotated(first, node_name, name);
    (second, ips_changed, name_changed)
}

/// What a write that was tried leads to: it is done, to be tried again after a
/// delay, or given up.
#[derive(Clone, Copy, Debug, PartialEq, Eq, Structural)]
pub enum CommitStep {
    Done,
    Retry,
    GiveUp,
}

/// An update of a node's annotations, and how often it may still be tried
/// again.
pub struct NodeUpdate {
    pub node_name: String,
    pub targets: AnnotationTargets,
    pub retries: u32,
}

impl NodeUpdate {
    /// An update that was not tried yet.
    pub fn new(node_name: String, targets: AnnotationTargets) -> (update: NodeUpdate)
        ensures
            update.node_name == node_name,
            update.targets == targets,
            update.retries == MAX_RETRIES,
    {
        NodeUpdate { node_name, targets, retries: MAX_RETRIES }
    }

    /// Whether the node's addresses are needed.
    pub fn needs_ips(&self) -> (needed: bool)
        ensures
            needed == self.targets.ips is Some,
    {
        self.targets.ips.is_some()
    }

    /// Sets the annotations of the node that was found, first that with the
    /// addresses, then that with the name.
    pub fn prepare(&self, found: Option<Node>, ips: &Vec<IpAddr>) -> (prepared: Result<
        AnnotatedNode,
        Error,
    >)
        ensures
            match (found, prepared) {
                (Some(node), Ok(p)) => {
                    (p.node@, p.report.ips, p.report.node_name) == updated(
                        node@,
                        text_view(self.targets.ips),
                        ip_list_text(ips@),
                        text_view(self.targets.node_name),
                        self.node_name@,
                    )
                },
                (None, Err(e)) => e@ == (ErrorView::NodeNotFound { node: self.node_name@ }),
                _ => false,
            },
    {
        let mut node = match found {
            Some(node) => node,
            None => {
                return Err(Error::NodeNotFound { node: self.node_name.clone() });
            },
        };
        let ips_changed = match &self.targets.ips {
            Some(annotation) => {
                let list = ip_list(ips);
                Some(set_annotation(&mut node, annotation.as_str(), list.as_str()))
            },
            None => None,
        };
        let name_changed = match &self.targets.node_name {
            Some(annotation) => Some(
                set_annotation(&mut node, annotation.as_str(), self.node_name.as_str()),
            ),
            None => None,
        };
        Ok(
            AnnotatedNode {
                node,
                report: AnnotationReport { ips: ips_changed, node_name: name_changed },
            },
        )
    }

    /// Takes in whether the write succeeded.
    pub fn after_commit(&mut self, committed: bool) -> (step: CommitStep)
        ensures
            commit_step(old(self).retries as nat, committed) == (
                step,
                final(self).retries as nat,
            ),
            final(self).node_name == old(self).node_name,
            final(self).targets == old(self).targets,
            committed <==> step == CommitStep::Done,
            !committed && old(self).retries > 0 <==> step == CommitStep::Retry,
            step == CommitStep::Retry ==> final(self).retries == old(self).retries - 1,
            step != CommitStep::Retry ==> final(self).retries == old(self).retries,
    {
        if committed {
            return CommitStep::Done;
        }
        match self.retries.checked_sub(1) {
            Some(remaining) => {
                self.retries = remaining;
                CommitStep::Retry
            },
            None => CommitStep::GiveUp,
        }
    }
}

/// What a write leads to, and how many retries are left after it.
pub open spec fn commit_step(retries: nat, committed: bool) -> (CommitStep, nat) {
    if committed {
        (CommitStep::Done, retries)
    } else if retries > 0 {
        (CommitStep::Retry, (retries - 1) as nat)
    } else {
        (CommitStep::GiveUp, retries)
    }
}

/// A write that succeeded is done. One that failed is tried again, which uses up
/// a retry, as long as there are retries left.
pub proof fn writes_are_retried_while_there_are_retries(retries: nat, committed: bool)
    ensures
        committed ==> commit_step(retries, committed) == (CommitStep::Done, retries),
        !committed && retries > 0 ==> commit_step(retries, committed).0 == CommitStep::Retry
            && commit_step(retries, committed).1 + 1 == retries,
        !committed && retries == 0 ==> commit_step(retries, committed) == (
            CommitStep::GiveUp,
            retries,
        ),
{
}

/// What writes that all fail lead to, one after the other.
pub open spec fn failing(retries: nat, writes: nat) -> CommitStep
    recommends
        writes > 0,
    decreases writes,
{
    let (step, left) = commit_step(retries, false);
    if writes <= 1 || step != CommitStep::Retry {
        step
    } else {
        failing(left, (writes - 1) as nat)
    }
}

/// A write that keeps failing is tried once and then once more for every
/// retry, and given up after that.
pub proof fn failing_writes_are_given_up(retries: nat, writes: nat)
    requires
        writes > 0,
    ensures
        failing(retries, writes) == if writes <= retries {
            CommitStep::Retry
        } else {
            CommitStep::GiveUp
        },
    decreases writes,
{
    if writes > 1 && retries > 0 {
        failing_writes_are_given_up((retries - 1) as nat, (writes - 1) as nat);
    }
}

/// Setting an annotation is seen when it is read, and leaves the others, and
/// the rest of the node, as they were.
pub proof fn annotation_is_read_back(
    node: NodeView,
    annotation: Seq<char>,
    value: Seq<char>,
    other: Seq<char>,
)
    ensures
        node.with_annotation(annotation, value).annotation(annotation) == Some(value),
        other != annotation ==> node.with_annotation(annotation, value).annotation(other)
            == node.annotation(other),
        node.with_annotation(annotation, value).name == node.name,
        node.with_annotation(annotation, value).serves() == node.serves(),
{
    let after = node.with_annotation(annotation, value);
    assert forall|i: int| #[trigger] after.tells_readiness(i) == node.tells_readiness(i) by {
    }
    if node.is_ready() {
        let i = choose|i: int| #[trigger]
            node.tells_readiness(i) && node.conditions[i].status == crate::node::CONDITION_TRUE@;
        assert(after.tells_readiness(i));
    }
}

/// Setting an annotation to what it is changes nothing.
pub proof fn annotating_again_changes_nothing(
    node: NodeView,
    annotation: Seq<char>,
    value: Seq<char>,
)
    ensures
        ({
            let once = node.with_annotation(annotation, value);
            annotated(once, Some(annotation), value) == (once, Some(false))
        }),
{
    let once = node.with_annotation(annotation, value);
    assert(once.with_annotation(annotation, value).annotations =~= once.annotations);
}

/// After an update, the annotation for the node's name reads exactly that name,
/// and the one for its addresses exactly the list, unless it is the same
/// annotation. Every other annotation is as it was, and so is the rest of the
/// node.
pub proof fn updated_annotations_read_what_was_written(
    node: NodeView,
    ips: Option<Seq<char>>,
    list: Seq<char>,
    node_name: Option<Seq<char>>,
    name: Seq<char>,
)
    ensures
        ({
            let after = updated(node, ips, list, node_name, name).0;
            &&& node_name matches Some(b) ==> after.annotations.contains_key(b)
                && after.annotations[b] == name
            &&& ips matches Some(a) ==> (node_name != Some(a) ==> after.annotations.contains_key(a)
                && after.annotations[a] == list)
            &&& forall|k: Seq<char>|
                ips != Some(k) && node_name != Some(k) ==> #[trigger] after.annotations.contains_key(
                    k,
                ) == node.annotations.contains_key(k)
            &&& forall|k: Seq<char>|
                ips != Some(k) && node_name != Some(k) && node.annotations.contains_key(k)
                    ==> #[trigger] after.annotations[k] == node.annotations[k]
            &&& after.name == node.name
            &&& after.unschedulable == node.unschedulable
            &&& after.conditions == node.conditions
        }),
{
}

/// An annotation is reported just if it was to be written, and as changed just
/// if it did not have that very text before.
pub proof fn updates_report_what_was_not_there_before(
    node: NodeView,
    ips: Option<Seq<char>>,
    list: Seq<char>,
    node_name: Option<Seq<char>>,
    name: Seq<char>,
)
    ensures
        ({
            let (_, ips_changed, name_changed) = updated(node, ips, list, node_name, name);
            &&& ips_changed is Some <==> ips is Some
            &&& name_changed is Some <==> node_name is Some
            &&& ips matches Some(a) ==> ips_changed == Some(
                !(node.annotations.contains_key(a) && node.annotations[a] == list),
            )
            &&& node_name matches Some(b) ==> (ips != Some(b) ==> name_changed == Some(
                !(node.annotations.contains_key(b) && node.annotations[b] == name),
            ))
            &&& node_name matches Some(b) ==> (ips == Some(b) ==> name_changed == Some(
                list != name,
            ))
        }),
{
}

/// Updating a node again leaves it as it is, and reports no change unless both
/// texts go to the same annotation, where the name replaces the addresses.
pub proof fn updating_again_changes_nothing(
    node: NodeView,
    ips: Option<Seq<char>>,
    list: Seq<char>,
    node_name: Option<Seq<char>>,
    name: Seq<char>,
)
    ensures
        ({
            let once = updated(node, ips, list, node_name, name).0;
            let again = updated(once, ips, list, node_name, name);
            &&& again.0 == once
            &&& ips is None || ips != node_name ==> again.1 != Some(true) && again.2 != Some(true)
        }),
{
    let once = updated(node, ips, list, node_name, name).0;
    let again = updated(once, ips, list, node_name, name);
    assert(again.0.annotations =~= once.annotations);
}

/// A node whose annotations are not reported as changed is as it was.
pub proof fn no_annotation_changes_without_report(
    node: NodeView,
    annotation: Option<Seq<char>>,
    value: Seq<char>,
)
    ensures
        annotated(node, annotation, value).1 != Some(true) ==> annotated(node, annotation, value).0
            == node,
{
    if let Some(a) = annotation {
        if node.annotation(a) == Some(value) {
            assert(node.with_annotation(a, value).annotations =~= node.annotations);
        }
    }
}

/// What is annotated is what is published: the addresses that were written to
/// a named node that serves are those its records are made of, and without
/// addresses it has no records.
pub proof fn annotated_addresses_are_published(
    node: NodeView,
    ips: Seq<IpAddr>,
    numbers: CoordinateNumbers,
    name: Seq<char>,
)
    requires
        node.name == Some(name),
        node.serves(),
        node_coordinates(node, numbers) is Ok,
    ensures
        node_state(node.with_annotation(NODE_IPS_ANNOTATION@, ip_list_text(ips)), numbers) == Ok::<
            Option<NodeStateView>,
            ErrorView,
        >(
            if ips.len() > 0 {
                Some(
                    NodeStateView {
                        name,
                        ips,
                        coordinates: node_coordinates(node, numbers)->Ok_0,
                    },
                )
            } else {
                None
            },
        ),
{
    let list = ip_list_text(ips);
    list_is_read_back(ips);
    reveal_strlit("kube-node-dns.kyle.space/node-ips");
    reveal_strlit("kube-node-dns.kyle.space/aws-geoproximity-coordinates");
    assert(NODE_IPS_ANNOTATION@.len() != COORDINATES_ANNOTATION@.len());
    annotation_is_read_back(node, NODE_IPS_ANNOTATION@, list, COORDINATES_ANNOTATION@);
}

/// A node's records are made of its globally reachable addresses, once those
/// that were found on its interfaces are annotated. If there are none it has
/// no records.
pub proof fn published_addresses_are_reachable(
    node: NodeView,
    ifaces: Seq<Interface>,
    ips: Seq<IpAddr>,
    numbers: CoordinateNumbers,
)
    requires
        are_found(ips, ifaces),
    ensures
        ({
            let read = node_state(
                node.with_annotation(NODE_IPS_ANNOTATION@, ip_list_text(ips)),
                numbers,
            );
            &&& read matches Ok(Some(state)) ==> forall|x: IpAddr| #[trigger]
                state.ips.contains(x) <==> globally_reachable(x) && on_interface(ifaces, x)
            &&& (forall|x: IpAddr| #[trigger]
                on_interface(ifaces, x) ==> !globally_reachable(x)) ==> read == Ok::<
                Option<NodeStateView>,
                ErrorView,
            >(None)
        }),
{
    list_is_read_back(ips);
    if forall|x: IpAddr| #[trigger] on_interface(ifaces, x) ==> !globally_reachable(x) {
        if ips.len() > 0 {
            assert(ips.contains(ips[0]));
        }
    }
}

} // verus!
