//! The loop that follows a watch on the nodes and publishes their records.

use crate::coordinates::CoordinateNumbers;
use crate::error::{Error, ErrorView};
use crate::node::{NodeView, NODE_IPS_ANNOTATION};
use crate::node_state::{node_state, NodeStateView};
use crate::publisher::{
    handled, is_consistent, DnsPublisher, KnownNodes, NodeEvent, NodeEventView,
};
use vstd::prelude::*;

verus! {

/// What the loop waits for: a request to shut down, an event of the watch, an
/// error of the watch, or its end.
pub enum WatchInput {
    Shutdown,
    Event(NodeEvent),
    StreamError,
    StreamEnd,
}

/// A `WatchInput` by its texts.
pub ghost enum WatchInputView {
    Shutdown,
    Event(NodeEventView),
    StreamError,
    StreamEnd,
}

impl View for WatchInput {
    type V = WatchInputView;

    open spec fn view(&self) -> WatchInputView {
        match *self {
            WatchInput::Shutdown => WatchInputView::Shutdown,
            WatchInput::Event(event) => WatchInputView::Event(event@),
            WatchInput::StreamError => WatchInputView::StreamError,
            WatchInput::StreamEnd => WatchInputView::StreamEnd,
        }
    }
}

/// What the loop does next: end, wait again, or publish the records of the
/// known nodes and wait again.
#[derive(Clone, Copy, Debug, PartialEq, Eq, Structural)]
pub enum WatchAction {
    Stop,
    Continue,
    Publish,
}

/// What came of an input: what to do next, and what was wrong with an event.
pub struct WatchStep {
    pub action: WatchAction,
    pub error: Option<Error>,
}

/// Where the loop stands: the known nodes, and whether they changed since
/// they were last published.
#[verifier::ext_equal]
pub ghost struct LoopState {
    pub known: KnownNodes,
    pub pending: bool,
}

/// Where the loop stands before its first input.
pub open spec fn initial() -> LoopState {
    LoopState { known: Map::empty(), pending: false }
}

/// Where an input takes the loop, and what it does next. An event publishes
/// if there are changes, from this event or before, and the watch is up to
/// date with it.
pub open spec fn next(
    state: LoopState,
    input: WatchInputView,
    numbers: CoordinateNumbers,
) -> (LoopState, WatchAction) {
    match input {
        WatchInputView::Shutdown => (state, WatchAction::Stop),
        WatchInputView::StreamEnd => (state, WatchAction::Stop),
        WatchInputView::StreamError => (state, WatchAction::Continue),
        WatchInputView::Event(event) => {
            let (known, result) = handled(state.known, event, numbers);
            let pending = state.pending || result == Ok::<bool, ErrorView>(true);
            if pending && event.is_current() {
                (LoopState { known, pending: false }, WatchAction::Publish)
            } else {
                (LoopState { known, pending }, WatchAction::Continue)
            }
        },
    }
}

/// What was wrong with an event.
pub open spec fn complaint(
    state: LoopState,
    input: WatchInputView,
    numbers: CoordinateNumbers,
) -> Option<ErrorView> {
    match input {
        WatchInputView::Event(event) => match handled(state.known, event, numbers).1 {
            Err(e) => Some(e),
            Ok(_) => None,
        },
        _ => None,
    }
}

/// The loop: a publisher, and whether it has changes to publish.
pub struct PublishLoop {
    publisher: DnsPublisher,
    pending_changes: bool,
}

impl View for PublishLoop {
    type V = LoopState;

    closed spec fn view(&self) -> LoopState {
        LoopState { known: self.publisher.known(), pending: self.pending_changes }
    }
}

impl PublishLoop {
    /// The publisher of the loop.
    pub closed spec fn inner(self) -> DnsPublisher {
        self.publisher
    }

    /// The loop before its first input.
    pub fn new(publisher: DnsPublisher) -> (publish_loop: PublishLoop)
        ensures
            publish_loop@ == (LoopState { known: publisher.known(), pending: false }),
            publish_loop.inner() == publisher,
    {
        PublishLoop { publisher, pending_changes: false }
    }

    /// The publisher of the loop.
    pub fn publisher(&self) -> (publisher: &DnsPublisher)
        ensures
            *publisher == self.inner(),
            publisher.known() == self@.known,
    {
        &self.publisher
    }

    /// Takes an input in, given what the texts of the coordinates are as
    /// numbers, and says what to do next.
    pub fn step(&mut self, input: &WatchInput, numbers: CoordinateNumbers) -> (step: WatchStep)
        ensures
            next(old(self)@, input@, numbers) == (final(self)@, step.action),
            match step.error {
                Some(e) => complaint(old(self)@, input@, numbers) == Some(e@),
                None => complaint(old(self)@, input@, numbers) is None,
            },
            final(self).inner().domain_list() == old(self).inner().domain_list(),
    {
        match input {
            WatchInput::Shutdown => WatchStep { action: WatchAction::Stop, error: None },
            WatchInput::StreamEnd => WatchStep { action: WatchAction::Stop, error: None },
            WatchInput::StreamError => WatchStep { action: WatchAction::Continue, error: None },
            WatchInput::Event(event) => {
                let error = match self.publisher.handle_event(event, numbers) {
                    Ok(changed) => {
                        if changed {
                            self.pending_changes = true;
                        }
                        None
                    },
                    Err(e) => Some(e),
                };
                if self.pending_changes && event.is_current() {
                    self.pending_changes = false;
                    WatchStep { action: WatchAction::Publish, error }
                } else {
                    WatchStep { action: WatchAction::Continue, error }
                }
            },
        }
    }
}

/// Once a node that is read as a state is reported, whether in the initial
/// listing or later, it is known under its name with exactly the name and the
/// addresses that were read, and with the coordinates that were read or, where
/// nothing else changed, such as compare equal. Every other node is as it was.
pub proof fn reported_nodes_are_known_as_they_were_read(
    known: KnownNodes,
    node: NodeView,
    numbers: CoordinateNumbers,
    name: Seq<char>,
    state: NodeStateView,
)
    requires
        node.name == Some(name),
        node_state(node, numbers) == Ok::<Option<NodeStateView>, ErrorView>(Some(state)),
    ensures
        handled(known, NodeEventView::InitApply(node), numbers) == handled(
            known,
            NodeEventView::Apply(node),
            numbers,
        ),
        ({
            let after = handled(known, NodeEventView::Apply(node), numbers).0;
            &&& after.contains_key(name)
            &&& after[name].name == name
            &&& after[name].ips == state.ips
            &&& after[name].coordinates == state.coordinates || (after[name].coordinates matches Some(
                now,
            ) && state.coordinates matches Some(read) && now.latitude.equals(read.latitude)
                && now.longitude.equals(read.longitude))
            &&& forall|other: Seq<char>|
                other != name ==> #[trigger] after.contains_key(other) == known.contains_key(other)
            &&& forall|other: Seq<char>|
                other != name && known.contains_key(other) ==> #[trigger] after[other] == known[other]
        }),
{
    crate::publisher::read_state_is_named_and_addressed(node, numbers);
}

/// A reported node that is read as a state is no change just if it was known
/// with the same name, the same addresses, and coordinates that compare equal
/// or are missing as well.
pub proof fn reported_nodes_are_changes_unless_known_alike(
    known: KnownNodes,
    node: NodeView,
    numbers: CoordinateNumbers,
    name: Seq<char>,
    state: NodeStateView,
)
    requires
        node.name == Some(name),
        node_state(node, numbers) == Ok::<Option<NodeStateView>, ErrorView>(Some(state)),
    ensures
        ({
            let (after, result) = handled(known, NodeEventView::Apply(node), numbers);
            let alike = {
                &&& known.contains_key(name)
                &&& known[name].name == state.name
                &&& known[name].ips == state.ips
                &&& match (known[name].coordinates, state.coordinates) {
                    (Some(a), Some(b)) => a.latitude.equals(b.latitude) && a.longitude.equals(
                        b.longitude,
                    ),
                    (None, None) => true,
                    _ => false,
                }
            };
            &&& result == Ok::<bool, ErrorView>(!alike)
            &&& alike ==> after == known
            &&& !alike ==> after == known.insert(name, state)
        }),
{
}

/// What comes of the other events: a node without records is dropped, and so is
/// a deleted one, which is a change just if it was known. A node that cannot be
/// read or has no name is an error and changes nothing, and so does the start
/// and the end of a listing.
pub proof fn other_events_drop_a_node_or_change_nothing(
    known: KnownNodes,
    node: NodeView,
    numbers: CoordinateNumbers,
)
    ensures
        node.name matches Some(name) ==> {
            &&& handled(known, NodeEventView::Delete(node), numbers) == (
                known.remove(name),
                Ok::<bool, ErrorView>(known.contains_key(name)),
            )
            &&& node_state(node, numbers) == Ok::<Option<NodeStateView>, ErrorView>(None)
                ==> handled(known, NodeEventView::Apply(node), numbers) == (
                known.remove(name),
                Ok::<bool, ErrorView>(known.contains_key(name)),
            ) && handled(known, NodeEventView::InitApply(node), numbers) == (
                known.remove(name),
                Ok::<bool, ErrorView>(known.contains_key(name)),
            )
            &&& node_state(node, numbers) matches Err(e) ==> handled(
                known,
                NodeEventView::Apply(node),
                numbers,
            ) == (known, Err::<bool, ErrorView>(e)) && handled(
                known,
                NodeEventView::InitApply(node),
                numbers,
            ) == (known, Err::<bool, ErrorView>(e))
        },
        node.name is None ==> {
            &&& handled(known, NodeEventView::Delete(node), numbers) == (
                known,
                Err::<bool, ErrorView>(ErrorView::NamelessDelete),
            )
            &&& handled(known, NodeEventView::Apply(node), numbers) == (
                known,
                Err::<bool, ErrorView>(ErrorView::NamelessApply),
            )
            &&& handled(known, NodeEventView::InitApply(node), numbers) == (
                known,
                Err::<bool, ErrorView>(ErrorView::NamelessApply),
            )
        },
        handled(known, NodeEventView::Init, numbers) == (known, Ok::<bool, ErrorView>(false)),
        handled(known, NodeEventView::InitDone, numbers) == (known, Ok::<bool, ErrorView>(false)),
{
}

/// Every change or deletion of a node and every end of a listing, whatever the
/// node, publishes with that very event if it is a change or there are changes
/// from before, and otherwise publishes nothing and leaves nothing to publish.
/// While a listing goes on nothing is published, and changes are kept for
/// later.
pub proof fn changes_are_published_by_the_kind_of_event(
    state: LoopState,
    event: NodeEventView,
    numbers: CoordinateNumbers,
)
    ensures
        ({
            let (known, result) = handled(state.known, event, numbers);
            let changed = state.pending || result == Ok::<bool, ErrorView>(true);
            let (after, action) = next(state, WatchInputView::Event(event), numbers);
            &&& after.known == known
            &&& event is Apply || event is Delete || event is InitDone ==> {
                &&& changed ==> action == WatchAction::Publish
                &&& !changed ==> action == WatchAction::Continue
                &&& !after.pending
            }
            &&& event is Init || event is InitApply ==> {
                &&& action == WatchAction::Continue
                &&& after.pending == changed
            }
        }),
{
}

/// A request to shut down and the end of the watch end the loop, an error of
/// the watch does not, and none of them changes what is known or pending. What
/// is complained of is just the error of an event.
pub proof fn the_loop_ends_on_shutdown_and_at_the_end(
    state: LoopState,
    event: NodeEventView,
    numbers: CoordinateNumbers,
)
    ensures
        next(state, WatchInputView::Shutdown, numbers) == (state, WatchAction::Stop),
        next(state, WatchInputView::StreamEnd, numbers) == (state, WatchAction::Stop),
        next(state, WatchInputView::StreamError, numbers) == (state, WatchAction::Continue),
        next(state, WatchInputView::Event(event), numbers).1 != WatchAction::Stop,
        complaint(state, WatchInputView::Shutdown, numbers) is None,
        complaint(state, WatchInputView::StreamEnd, numbers) is None,
        complaint(state, WatchInputView::StreamError, numbers) is None,
        match handled(state.known, event, numbers).1 {
            Ok(_) => complaint(state, WatchInputView::Event(event), numbers) is None,
            Err(e) => complaint(state, WatchInputView::Event(event), numbers) == Some(e),
        },
{
}

/// Handling an event keeps every known node under its own name and with
/// addresses.
pub proof fn handling_keeps_consistency(
    known: KnownNodes,
    event: NodeEventView,
    numbers: CoordinateNumbers,
)
    requires
        is_consistent(known),
    ensures
        is_consistent(handled(known, event, numbers).0),
{
    if event.applied() is Some {
        let node = event.applied()->0;
        crate::publisher::read_state_is_named_and_addressed(node, numbers);
    }
}

/// Handling an event leaves every other node as it was.
pub proof fn handling_concerns_one_node(
    known: KnownNodes,
    event: NodeEventView,
    numbers: CoordinateNumbers,
    other: Seq<char>,
)
    requires
        event.subject() != Some(other),
    ensures
        handled(known, event, numbers).0.contains_key(other) == known.contains_key(other),
        known.contains_key(other) ==> handled(known, event, numbers).0[other] == known[other],
{
}

/// Events about different nodes may come in either order: the same nodes are
/// known in the end, and each event comes to the same.
pub proof fn events_on_different_nodes_commute(
    known: KnownNodes,
    a: NodeEventView,
    numbers_a: CoordinateNumbers,
    b: NodeEventView,
    numbers_b: CoordinateNumbers,
)
    requires
        a.subject() is Some ==> a.subject() != b.subject(),
    ensures
        ({
            let (after_a, first_a) = handled(known, a, numbers_a);
            let (after_b, first_b) = handled(known, b, numbers_b);
            &&& handled(after_a, b, numbers_b).0 == handled(after_b, a, numbers_a).0
            &&& handled(after_a, b, numbers_b).1 == first_b
            &&& handled(after_b, a, numbers_a).1 == first_a
        }),
{
    let after_a = handled(known, a, numbers_a).0;
    let after_b = handled(known, b, numbers_b).0;
    assert(handled(after_a, b, numbers_b).0 =~= handled(after_b, a, numbers_a).0);
}

/// An event that is an error, or that reports no change, leaves the known
/// nodes as they were.
pub proof fn no_change_without_report(
    known: KnownNodes,
    event: NodeEventView,
    numbers: CoordinateNumbers,
)
    requires
        handled(known, event, numbers).1 != Ok::<bool, ErrorView>(true),
    ensures
        handled(known, event, numbers).0 == known,
{
    assert(handled(known, event, numbers).0 =~= known);
}

/// A reported change is one, unless it is to coordinates that are no numbers:
/// those never compare equal.
pub proof fn no_report_without_change(
    known: KnownNodes,
    event: NodeEventView,
    numbers: CoordinateNumbers,
)
    requires
        handled(known, event, numbers).1 == Ok::<bool, ErrorView>(true),
        event.applied() matches Some(node) ==> (node_state(node, numbers) matches Ok(Some(state))
            ==> state.has_numbers()),
    ensures
        handled(known, event, numbers).0 != known,
{
    let after = handled(known, event, numbers).0;
    let name = event.subject()->0;
    if known.contains_key(name) && after.contains_key(name) {
        assert(known[name] != after[name]);
    } else {
        assert(known.contains_key(name) != after.contains_key(name));
    }
}

/// Handling the same event again changes nothing and reports no change,
/// unless the node's coordinates are no numbers.
pub proof fn handling_again_changes_nothing(
    known: KnownNodes,
    event: NodeEventView,
    numbers: CoordinateNumbers,
)
    requires
        handled(known, event, numbers).1 is Ok,
        event.applied() matches Some(node) ==> (node_state(node, numbers) matches Ok(Some(state))
            ==> state.has_numbers()),
    ensures
        ({
            let after = handled(known, event, numbers).0;
            handled(after, event, numbers) == (after, Ok::<bool, ErrorView>(false))
        }),
{
    let after = handled(known, event, numbers).0;
    assert(handled(after, event, numbers).0 =~= after);
}

/// Whether a node lists no address.
pub open spec fn lists_no_address(node: NodeView) -> bool {
    match node.annotation(NODE_IPS_ANNOTATION@) {
        Some(list) => list.len() == 0,
        None => true,
    }
}

/// A node that has no address, is cordoned, or is not ready is not known once
/// that is reported, and its removal is a change.
pub proof fn unfit_nodes_are_removed(
    known: KnownNodes,
    event: NodeEventView,
    numbers: CoordinateNumbers,
    name: Seq<char>,
)
    requires
        event.applied() matches Some(node) && node.name == Some(name) && (lists_no_address(node)
            || node.unschedulable || !node.is_ready()),
    ensures
        handled(known, event, numbers) == (
            known.remove(name),
            Ok::<bool, ErrorView>(known.contains_key(name)),
        ),
        !handled(known, event, numbers).0.contains_key(name),
{
}

/// A node that serves and can be read is known once it is reported, in the
/// state that was read or one that compares equal to it.
pub proof fn fit_nodes_are_known(
    known: KnownNodes,
    event: NodeEventView,
    numbers: CoordinateNumbers,
    name: Seq<char>,
    state: NodeStateView,
)
    requires
        event.applied() matches Some(node) && node.name == Some(name) && node_state(node, numbers)
            == Ok::<Option<NodeStateView>, ErrorView>(Some(state)),
    ensures
        handled(known, event, numbers).0.contains_key(name),
        ({
            let now = handled(known, event, numbers).0[name];
            now == state || now.equals(state)
        }),
{
}

/// A deleted node is not known once that is reported.
pub proof fn deleted_nodes_are_removed(
    known: KnownNodes,
    node: NodeView,
    numbers: CoordinateNumbers,
    name: Seq<char>,
)
    requires
        node.name == Some(name),
    ensures
        handled(known, NodeEventView::Delete(node), numbers) == (
            known.remove(name),
            Ok::<bool, ErrorView>(known.contains_key(name)),
        ),
{
}

/// An input and what the texts of its coordinates are as numbers.
pub ghost struct Arrival {
    pub input: WatchInputView,
    pub numbers: CoordinateNumbers,
}

/// Where the loop stands after some inputs, and the known nodes when it last
/// published.
#[verifier::ext_equal]
pub ghost struct Course {
    pub state: LoopState,
    pub published: KnownNodes,
}

/// The course of the loop over the inputs.
pub open spec fn course(arrivals: Seq<Arrival>) -> Course
    decreases arrivals.len(),
{
    if arrivals.len() == 0 {
        Course { state: initial(), published: Map::empty() }
    } else {
        let before = course(arrivals.drop_last());
        let (state, action) = next(
            before.state,
            arrivals.last().input,
            arrivals.last().numbers,
        );
        Course {
            state,
            published: if action == WatchAction::Publish {
                state.known
            } else {
                before.published
            },
        }
    }
}

/// Without pending changes the known nodes are those that were last
/// published: no change is lost.
pub proof fn no_change_is_lost(arrivals: Seq<Arrival>)
    ensures
        !course(arrivals).state.pending ==> course(arrivals).published
            == course(arrivals).state.known,
        is_consistent(course(arrivals).state.known),
    decreases arrivals.len(),
{
    if arrivals.len() > 0 {
        let before = course(arrivals.drop_last()).state;
        let last = arrivals.last();
        no_change_is_lost(arrivals.drop_last());
        if let WatchInputView::Event(event) = last.input {
            handling_keeps_consistency(before.known, event, last.numbers);
            if handled(before.known, event, last.numbers).1 != Ok::<bool, ErrorView>(true) {
                no_change_without_report(before.known, event, last.numbers);
            }
        }
    }
}

/// Whenever the watch is up to date with an event, what was last published is
/// what is known.
pub proof fn published_is_up_to_date(arrivals: Seq<Arrival>)
    requires
        arrivals.len() > 0,
        arrivals.last().input matches WatchInputView::Event(event) && event.is_current(),
    ensures
        course(arrivals).published == course(arrivals).state.known,
{
    no_change_is_lost(arrivals);
}

/// Without changes from before, an input that reports no change publishes
/// nothing and leaves everything as it was.
pub proof fn nothing_is_published_without_change(
    state: LoopState,
    input: WatchInputView,
    numbers: CoordinateNumbers,
)
    requires
        !state.pending,
        input matches WatchInputView::Event(event) ==> handled(state.known, event, numbers).1 != Ok::<
            bool,
            ErrorView,
        >(true),
    ensures
        next(state, input, numbers).0 == state,
        next(state, input, numbers).1 != WatchAction::Publish,
{
    if let WatchInputView::Event(event) = input {
        no_change_without_report(state.known, event, numbers);
    }
}

/// A known node that turns out to have no address, to be cordoned or not to be
/// ready, or that is deleted, is gone from what is published with that very
/// event.
pub proof fn unfit_nodes_are_unpublished_at_once(
    state: LoopState,
    event: NodeEventView,
    numbers: CoordinateNumbers,
    name: Seq<char>,
)
    requires
        state.known.contains_key(name),
        event.subject() == Some(name),
        match event {
            NodeEventView::Apply(node) => lists_no_address(node) || node.unschedulable
                || !node.is_ready(),
            NodeEventView::Delete(_) => true,
            _ => false,
        },
    ensures
        next(state, WatchInputView::Event(event), numbers) == (
            LoopState { known: state.known.remove(name), pending: false },
            WatchAction::Publish,
        ),
{
}

/// Nothing is published while the watch is still reporting the nodes that
/// there are.
pub proof fn nothing_is_published_early(
    state: LoopState,
    event: NodeEventView,
    numbers: CoordinateNumbers,
)
    requires
        event is Init || event is InitApply,
    ensures
        next(state, WatchInputView::Event(event), numbers).1 == WatchAction::Continue,
{
}

} // verus!
