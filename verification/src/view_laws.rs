//! What the values of the library look like in contracts: just what their
//! fields hold.

use crate::error::{Error, ErrorView};
use crate::hosted_zone::{domains_view, zones_view, HostedZone, HostedZoneDomain};
use crate::node::{annotations_view, Node};
use crate::node_state::{outcome_view, NodeState};
use crate::publish_loop::{WatchInput, WatchInputView};
use crate::publisher::{result_view, NodeEvent, NodeEventView};
use crate::records::{records_view, DnsRecord};
use crate::text::{pieces_view, text_view, texts_view};
use vstd::prelude::*;

verus! {

/// A node is seen by its name, each of its annotations and conditions, and
/// whether it is cordoned. Missing annotations are seen as none.
pub proof fn nodes_are_seen_by_their_fields(node: Node)
    ensures
        node@.name is Some <==> node.name is Some,
        node.name matches Some(name) ==> node@.name == Some(name@),
        node.annotations is None ==> node@.annotations.dom() == Set::<Seq<char>>::empty(),
        node.annotations matches Some(map) ==> node@.annotations.dom() == map@.dom() && forall|
            k: Seq<char>,
        |
            map@.contains_key(k) ==> #[trigger] node@.annotations[k] == map@[k]@,
        node@.unschedulable == node.unschedulable,
        node@.conditions.len() == node.conditions@.len(),
        forall|i: int|
            0 <= i < node.conditions@.len() ==> (#[trigger] node@.conditions[i]).kind
                == node.conditions@[i].kind@ && node@.conditions[i].status
                == node.conditions@[i].status@,
{
    assert(annotations_view(node.annotations) == node@.annotations);
    if let Some(map) = node.annotations {
        assert(node@.annotations.dom() =~= map@.dom());
    } else {
        assert(node@.annotations.dom() =~= Set::<Seq<char>>::empty());
    }
}

/// A state is seen by its name, addresses and coordinates.
pub proof fn states_are_seen_by_their_fields(state: NodeState)
    ensures
        state@.name == state.name@,
        state@.ips == state.ips@,
        state@.coordinates == state.coordinates,
{
}

/// What reading a node came to is seen as it is.
pub proof fn outcomes_are_seen_as_they_are(outcome: Result<Option<NodeState>, Error>)
    ensures
        outcome matches Ok(Some(state)) ==> outcome_view(outcome) matches Ok(Some(seen)) && seen
            == state@,
        outcome matches Ok(None) ==> outcome_view(outcome) matches Ok(None),
        outcome matches Err(e) ==> outcome_view(outcome) matches Err(seen) && seen == e@,
{
}

/// What handling an event came to is seen as it is.
pub proof fn results_are_seen_as_they_are(result: Result<bool, Error>)
    ensures
        result matches Ok(changed) ==> result_view(result) == Ok::<bool, ErrorView>(changed),
        result matches Err(e) ==> result_view(result) == Err::<bool, ErrorView>(e@),
{
}

/// An event is seen by its kind and its node.
pub proof fn events_are_seen_by_kind_and_node(event: NodeEvent)
    ensures
        match event {
            NodeEvent::Apply(node) => event@ == NodeEventView::Apply(node@),
            NodeEvent::InitApply(node) => event@ == NodeEventView::InitApply(node@),
            NodeEvent::Delete(node) => event@ == NodeEventView::Delete(node@),
            NodeEvent::Init => event@ == NodeEventView::Init,
            NodeEvent::InitDone => event@ == NodeEventView::InitDone,
        },
{
}

/// An input of the loop is seen by its kind and its event.
pub proof fn inputs_are_seen_by_kind_and_event(input: WatchInput)
    ensures
        match input {
            WatchInput::Shutdown => input@ == WatchInputView::Shutdown,
            WatchInput::Event(event) => input@ == WatchInputView::Event(event@),
            WatchInput::StreamError => input@ == WatchInputView::StreamError,
            WatchInput::StreamEnd => input@ == WatchInputView::StreamEnd,
        },
{
}

/// Hosted zones, and domains in them, are seen by their fields, one for one.
pub proof fn zones_are_seen_by_their_fields(
    zones: Seq<HostedZone>,
    domains: Seq<HostedZoneDomain>,
)
    ensures
        zones_view(zones).len() == zones.len(),
        forall|i: int|
            0 <= i < zones.len() ==> {
                &&& (#[trigger] zones_view(zones)[i]).id == zones[i].id@
                &&& zones_view(zones)[i].name == zones[i].name@
                &&& zones_view(zones)[i].private_zone == zones[i].private_zone
            },
        domains_view(domains).len() == domains.len(),
        forall|i: int|
            0 <= i < domains.len() ==> {
                &&& (#[trigger] domains_view(domains)[i]).domain == domains[i].domain@
                &&& domains_view(domains)[i].record_name == domains[i].record_name@
                &&& domains_view(domains)[i].hosted_zone.id == domains[i].hosted_zone.id@
                &&& domains_view(domains)[i].hosted_zone.name == domains[i].hosted_zone.name@
                &&& domains_view(domains)[i].hosted_zone.private_zone
                    == domains[i].hosted_zone.private_zone
            },
{
}

/// Records are seen by their fields, one for one.
pub proof fn records_are_seen_by_their_fields(records: Seq<DnsRecord>)
    ensures
        records_view(records).len() == records.len(),
        forall|i: int|
            0 <= i < records.len() ==> {
                &&& (#[trigger] records_view(records)[i]).domain == records[i].domain@
                &&& records_view(records)[i].node == records[i].node@
                &&& records_view(records)[i].address == records[i].address
                &&& records_view(records)[i].coordinates == records[i].coordinates
            },
{
}

/// An error is seen by its kind and its texts.
pub proof fn errors_are_seen_by_their_texts(error: Error)
    ensures
        match error {
            Error::InvalidRepeat { every, .. } => error@ == (ErrorView::InvalidRepeat {
                every: every@,
            }),
            Error::NodeNotFound { node } => error@ == (ErrorView::NodeNotFound { node: node@ }),
            Error::NamelessApply => error@ == ErrorView::NamelessApply,
            Error::NamelessDelete => error@ == ErrorView::NamelessDelete,
            Error::InvalidIp { node, ip } => error@ == (ErrorView::InvalidIp {
                node: node@,
                ip: ip@,
            }),
            Error::InvalidCoordinates { text } => error@ == (ErrorView::InvalidCoordinates {
                text: text@,
            }),
            Error::NoHostedZone { domain } => error@ == (ErrorView::NoHostedZone {
                domain: domain@,
            }),
        },
{
}

/// Texts are seen by their characters, one for one.
pub proof fn texts_are_seen_by_their_characters(
    text: Option<String>,
    texts: Seq<String>,
    pieces: Seq<Vec<char>>,
)
    ensures
        text is None <==> text_view(text) is None,
        text matches Some(t) ==> text_view(text) == Some(t@),
        texts_view(texts).len() == texts.len(),
        forall|i: int| 0 <= i < texts.len() ==> #[trigger] texts_view(texts)[i] == texts[i]@,
        pieces_view(pieces).len() == pieces.len(),
        forall|i: int| 0 <= i < pieces.len() ==> #[trigger] pieces_view(pieces)[i] == pieces[i]@,
{
}

} // verus!
