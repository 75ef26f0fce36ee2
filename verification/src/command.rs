//! What the program is asked to do.

use crate::error::{Error, ErrorView};
use crate::interval::{interval_of, is_bounded, repeat_interval, Interval};
use humantime::DurationError;
use vstd::prelude::*;

verus! {

/// What the program is asked to do: list the node's addresses, update its
/// annotations once or again and again, or publish the records of a cluster's
/// nodes.
pub enum Command {
    ListIps,
    Once,
    Repeat { every: String },
    PublishDns { domains: Vec<String>, node_label_selector: Option<String> },
}

/// What the program does.
pub enum Task {
    ListIps,
    UpdateOnce,
    UpdateRepeatedly { every: Interval },
    PublishDns { domains: Vec<String>, node_label_selector: Option<String> },
}

/// What a command comes to: a task, an error if it repeats at an interval that
/// is none, and nothing if the parts of that text add up to exactly the limit.
pub fn plan(command: Command) -> (task: Option<Result<Task, Error>>)
    ensures
        match command {
            Command::ListIps => task == Some(Ok::<Task, Error>(Task::ListIps)),
            Command::Once => task == Some(Ok::<Task, Error>(Task::UpdateOnce)),
            Command::Repeat { every } => match task {
                Some(Ok(t)) => {
                    &&& is_bounded(every@)
                    &&& t is UpdateRepeatedly
                    &&& interval_of(every@) == Ok::<Interval, DurationError>(t->every)
                },
                Some(Err(e)) => {
                    &&& is_bounded(every@)
                    &&& e@ == (ErrorView::InvalidRepeat { every: every@ })
                    &&& interval_of(every@) == Err::<Interval, DurationError>(e->cause)
                },
                None => !is_bounded(every@),
            },
            Command::PublishDns { domains, node_label_selector } => task == Some(
                Ok::<Task, Error>(Task::PublishDns { domains, node_label_selector }),
            ),
        },
{
    match command {
        Command::ListIps => Some(Ok(Task::ListIps)),
        Command::Once => Some(Ok(Task::UpdateOnce)),
        Command::Repeat { every } => match repeat_interval(every.as_str()) {
            Some(Ok(interval)) => Some(Ok(Task::UpdateRepeatedly { every: interval })),
            Some(Err(e)) => Some(Err(e)),
            None => None,
        },
        Command::PublishDns { domains, node_label_selector } => Some(
            Ok(Task::PublishDns { domains, node_label_selector }),
        ),
    }
}

} // verus!
