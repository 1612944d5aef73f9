//! The life cycle of a unit: six states and the events that move between them.
use vstd::prelude::*;

verus! {

#[derive(Debug, Clone, Copy, PartialEq, Eq, Hash, Structural)]
pub enum State {
    Inactive,
    Starting,
    Running,
    Stopping,
    Failed,
    Restarting,
}

#[derive(Debug, Clone, Copy, PartialEq, Eq, Structural)]
pub enum Event {
    Start,
    Stop,
    CameUp,
    ExitedCleanly,
    ExitedInError,
    Gone,
    RanOutOfTime,
    RetryScheduled,
    RetryDue,
}

/// The transition table: where `state` goes on `event`, or `None` when the
/// event makes no sense there.
pub open spec fn transition(state: State, event: Event) -> Option<State> {
    match (state, event) {
        (State::Inactive, Event::Start) => Some(State::Starting),
        (State::Inactive, Event::Stop) => Some(State::Inactive),
        (State::Starting, Event::CameUp) => Some(State::Running),
        (State::Starting, Event::ExitedCleanly) => Some(State::Inactive),
        (State::Starting, Event::ExitedInError) => Some(State::Failed),
        (State::Starting, Event::RanOutOfTime) => Some(State::Failed),
        (State::Starting, Event::Stop) => Some(State::Stopping),
        (State::Starting, Event::Start) => Some(State::Starting),
        (State::Running, Event::ExitedCleanly) => Some(State::Inactive),
        (State::Running, Event::ExitedInError) => Some(State::Failed),
        (State::Running, Event::Stop) => Some(State::Stopping),
        (State::Running, Event::Start) => Some(State::Running),
        (State::Stopping, Event::Gone) => Some(State::Inactive),
        (State::Stopping, Event::ExitedCleanly) => Some(State::Inactive),
        (State::Stopping, Event::ExitedInError) => Some(State::Inactive),
        (State::Stopping, Event::RanOutOfTime) => Some(State::Failed),
        (State::Stopping, Event::Stop) => Some(State::Stopping),
        (State::Failed, Event::Start) => Some(State::Starting),
        (State::Failed, Event::RetryScheduled) => Some(State::Restarting),
        (State::Failed, Event::Stop) => Some(State::Inactive),
        (State::Restarting, Event::RetryDue) => Some(State::Starting),
        (State::Restarting, Event::Start) => Some(State::Starting),
        (State::Restarting, Event::Stop) => Some(State::Inactive),
        _ => None,
    }
}

/// Feeds `events` to the machine one after the other, starting in `state`;
/// `None` as soon as one of them is refused.
pub open spec fn run(state: State, events: Seq<Event>) -> Option<State>
    decreases events.len(),
{
    if events.len() == 0 {
        Some(state)
    } else {
        match transition(state, events[0]) {
            Some(next) => run(next, events.drop_first()),
            None => None,
        }
    }
}

pub open spec fn is_settled(state: State) -> bool {
    state == State::Inactive || state == State::Running || state == State::Failed
}

pub open spec fn has_process(state: State) -> bool {
    state == State::Starting || state == State::Running || state == State::Stopping
}

pub open spec fn word(state: State) -> Seq<char> {
    match state {
        State::Inactive => "inactive"@,
        State::Starting => "starting"@,
        State::Running => "running"@,
        State::Stopping => "stopping"@,
        State::Failed => "failed"@,
        State::Restarting => "restarting"@,
    }
}

impl State {
    /// No move is pending: nothing will happen until someone asks for something.
    pub fn settled(self) -> (r: bool)
        ensures
            r == is_settled(self),
    {
        match self {
            State::Inactive | State::Running | State::Failed => true,
            _ => false,
        }
    }

    /// A process exists for the unit in this state.
    pub fn holds_a_process(self) -> (r: bool)
        ensures
            r == has_process(self),
    {
        match self {
            State::Starting | State::Running | State::Stopping => true,
            _ => false,
        }
    }

    /// Where the unit goes on `event`; `None` for an event that makes no sense here.
    pub fn after(self, event: Event) -> (r: Option<State>)
        ensures
            r == transition(self, event),
    {
        match (self, event) {
            (State::Inactive, Event::Start) => Some(State::Starting),
            (State::Inactive, Event::Stop) => Some(State::Inactive),
            (State::Starting, Event::CameUp) => Some(State::Running),
            (State::Starting, Event::ExitedCleanly) => Some(State::Inactive),
            (State::Starting, Event::ExitedInError) => Some(State::Failed),
            (State::Starting, Event::RanOutOfTime) => Some(State::Failed),
            (State::Starting, Event::Stop) => Some(State::Stopping),
            (State::Starting, Event::Start) => Some(State::Starting),
            (State::Running, Event::ExitedCleanly) => Some(State::Inactive),
            (State::Running, Event::ExitedInError) => Some(State::Failed),
            (State::Running, Event::Stop) => Some(State::Stopping),
            (State::Running, Event::Start) => Some(State::Running),
            (State::Stopping, Event::Gone) => Some(State::Inactive),
            (State::Stopping, Event::ExitedCleanly) => Some(State::Inactive),
            (State::Stopping, Event::ExitedInError) => Some(State::Inactive),
            (State::Stopping, Event::RanOutOfTime) => Some(State::Failed),
            (State::Stopping, Event::Stop) => Some(State::Stopping),
            (State::Failed, Event::Start) => Some(State::Starting),
            (State::Failed, Event::RetryScheduled) => Some(State::Restarting),
            (State::Failed, Event::Stop) => Some(State::Inactive),
            (State::Restarting, Event::RetryDue) => Some(State::Starting),
            (State::Restarting, Event::Start) => Some(State::Starting),
            (State::Restarting, Event::Stop) => Some(State::Inactive),
            _ => None,
        }
    }

    /// The word the command line prints for this state.
    pub fn to_string(&self) -> (r: String)
        ensures
            r@ == word(*self),
    {
        match self {
            State::Inactive => "inactive".to_owned(),
            State::Starting => "starting".to_owned(),
            State::Running => "running".to_owned(),
            State::Stopping => "stopping".to_owned(),
            State::Failed => "failed".to_owned(),
            State::Restarting => "restarting".to_owned(),
        }
    }
}

/// Every state can be reached from `Inactive` by some sequence of events.
pub proof fn every_state_is_reachable_from_inactive(target: State)
    ensures
        exists|events: Seq<Event>| run(State::Inactive, events) == Some(target),
{
    let events: Seq<Event> = match target {
        State::Inactive => seq![],
        State::Starting => seq![Event::Start],
        State::Running => seq![Event::Start, Event::CameUp],
        State::Stopping => seq![Event::Start, Event::Stop],
        State::Failed => seq![Event::Start, Event::ExitedInError],
        State::Restarting => seq![Event::Start, Event::ExitedInError, Event::RetryScheduled],
    };
    reveal_with_fuel(run, 4);
    assert(events.drop_first().drop_first().drop_first() =~= Seq::<Event>::empty() || events.len() < 3);
    assert(events.len() == 2 ==> events.drop_first().drop_first() =~= Seq::<Event>::empty());
    assert(events.len() == 1 ==> events.drop_first() =~= Seq::<Event>::empty());
    assert(run(State::Inactive, events) == Some(target));
}

/// From every state some sequence of events leads back to `Inactive`.
pub proof fn every_state_can_get_back_to_inactive(from: State)
    ensures
        exists|events: Seq<Event>| run(from, events) == Some(State::Inactive),
{
    reveal_with_fuel(run, 3);
    let once: Seq<Event> = seq![Event::Stop];
    let twice: Seq<Event> = seq![Event::Stop, Event::Gone];
    assert(once.drop_first() =~= Seq::<Event>::empty());
    assert(twice.drop_first().drop_first() =~= Seq::<Event>::empty());
    if from == State::Starting || from == State::Running || from == State::Stopping {
        assert(run(from, twice) == Some(State::Inactive));
    } else {
        assert(run(from, once) == Some(State::Inactive));
    }
}

/// `Stop` is accepted in every state, and asking for it a second time changes nothing.
pub proof fn stopping_twice_is_stopping_once(state: State)
    ensures
        transition(state, Event::Stop) is Some,
        transition(transition(state, Event::Stop)->0, Event::Stop) == transition(state, Event::Stop),
{
}

/// Wherever `Start` is accepted, asking for it a second time changes nothing.
pub proof fn starting_twice_is_starting_once(state: State)
    requires
        transition(state, Event::Start) is Some,
    ensures
        transition(transition(state, Event::Start)->0, Event::Start) == transition(state, Event::Start),
{
}

/// A settled state never holds a process unless it is `Running`, and a state
/// that holds a process and is settled is `Running`.
pub proof fn settled_with_a_process_is_running(state: State)
    ensures
        is_settled(state) && has_process(state) <==> state == State::Running,
{
}

/// A process only comes into being by starting: an event takes a state
/// that holds no process to one that holds a process only into `Starting`,
/// and `Running` is reached only when a starting process comes up, or kept
/// when it already runs; `Start` from a state without a process begins a start.
pub proof fn a_process_comes_only_from_starting(state: State, event: Event)
    ensures
        !has_process(state) && transition(state, event) is Some && has_process(transition(state, event)->0)
            ==> transition(state, event) == Some(State::Starting),
        transition(state, event) == Some(State::Running)
            ==> (state == State::Starting && event == Event::CameUp) || state == State::Running,
        !has_process(state) && event == Event::Start ==> transition(state, event) == Some(State::Starting),
{
}

} // verus!
