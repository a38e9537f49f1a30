//! The life cycle of one connection: accepted, registered, reading, closed.
//!
//! The life cycle decides and does nothing else. Each step takes what the
//! outside world returned and answers with the next phase and the actions to
//! perform, in order. Whoever owns the socket performs them and comes back
//! with the next event.

use vstd::prelude::*;
use crate::identity::ClientIdentity;
use crate::wire::{
    is_blank, is_whitespace, join_notice, joined_notice, leave_notice, left_notice,
    lemma_blank_trims_to_nothing, lemma_trim_end, lemma_trim_start, system_label, system_name,
    trim, trim_start, trimmed, welcome, welcome_line,
};

verus! {

/// Where a connection stands in its life cycle.
#[derive(Clone, Copy, PartialEq, Eq, Debug, Structural)]
pub enum Phase {
    /// The listener has accepted the connection; the welcome line is on its way.
    Accepted,
    /// The write handle goes into the registry and the others are told.
    Registered,
    /// Lines are read from the client and relayed to the others.
    Reading,
    /// The client is gone: its entry is removed and the others are told.
    Closed,
}

/// What the outside world returned to a connection.
#[derive(PartialEq, Eq, Debug)]
pub enum Event {
    /// The welcome line was written (`delivered`), or the write failed.
    Welcomed { delivered: bool },
    /// The handle is registered and the notice that the client joined has
    /// gone out.
    Announced,
    /// A read returned `count` bytes, which are `text`. No bytes: the peer
    /// has shut the connection down.
    Read { count: usize, text: String },
    /// A read failed.
    ReadFailed,
}

/// What a connection asks of the one who drives it.
#[derive(PartialEq, Eq, Debug)]
pub enum Action {
    /// Write `line` to the client. A failure is reported, not acted on.
    SendWelcome { line: String },
    /// Put the client's write handle into the registry, under its identity.
    Register,
    /// Fan `message` out under `label` to every client but this one.
    Broadcast { label: String, message: String },
    /// Read the next line from the client.
    ReadLine,
    /// Take the client's entry out of the registry.
    Deregister,
}

impl Clone for Action {
    fn clone(&self) -> (copy: Self)
        ensures
            copy@ == self@,
    {
        match self {
            Action::SendWelcome { line } => Action::SendWelcome { line: line.clone() },
            Action::Register => Action::Register,
            Action::Broadcast { label, message } => Action::Broadcast {
                label: label.clone(),
                message: message.clone(),
            },
            Action::ReadLine => Action::ReadLine,
            Action::Deregister => Action::Deregister,
        }
    }
}

/// What an [`Action`] stands for.
pub enum ActionView {
    SendWelcome { line: Seq<char> },
    Register,
    Broadcast { label: Seq<char>, message: Seq<char> },
    ReadLine,
    Deregister,
}

impl View for Action {
    type V = ActionView;

    open spec fn view(&self) -> ActionView {
        match self {
            Action::SendWelcome { line } => ActionView::SendWelcome { line: line@ },
            Action::Register => ActionView::Register,
            Action::Broadcast { label, message } => ActionView::Broadcast {
                label: label@,
                message: message@,
            },
            Action::ReadLine => ActionView::ReadLine,
            Action::Deregister => ActionView::Deregister,
        }
    }
}

impl DeepView for Action {
    type V = ActionView;

    open spec fn deep_view(&self) -> ActionView {
        self@
    }
}

/// The actions of a connection that has just been accepted.
pub open spec fn on_accept() -> Seq<ActionView> {
    seq![ActionView::SendWelcome { line: welcome_line() }]
}

/// The actions of a connection that registers: the handle goes in, then the
/// others are told.
pub open spec fn on_register(identity: Seq<char>) -> Seq<ActionView> {
    seq![
        ActionView::Register,
        ActionView::Broadcast { label: system_label(), message: joined_notice(identity) },
    ]
}

/// The actions of a connection whose client sent `message`, already
/// trimmed: a message that is not empty is relayed under the client's
/// identity; then the next line is read.
pub open spec fn on_message(identity: Seq<char>, message: Seq<char>) -> Seq<ActionView> {
    if message.len() == 0 {
        seq![ActionView::ReadLine]
    } else {
        seq![ActionView::Broadcast { label: identity, message }, ActionView::ReadLine]
    }
}

/// The actions of a connection that has read `text`: those for the text
/// without the white space at its ends.
pub open spec fn on_line(identity: Seq<char>, text: Seq<char>) -> Seq<ActionView> {
    on_message(identity, trimmed(text))
}

/// The actions of a connection that closes: the entry goes out, then the
/// others are told.
pub open spec fn on_close(identity: Seq<char>) -> Seq<ActionView> {
    seq![
        ActionView::Deregister,
        ActionView::Broadcast { label: system_label(), message: left_notice(identity) },
    ]
}

/// The step that the connection of `identity` takes in `phase` on `event`:
/// the next phase and the actions, or `None` where the phase does not wait
/// for such an event.
pub open spec fn transition(phase: Phase, identity: Seq<char>, event: Event) -> Option<
    (Phase, Seq<ActionView>),
> {
    match (phase, event) {
        (Phase::Accepted, Event::Welcomed { delivered }) => Some(
            (Phase::Registered, on_register(identity)),
        ),
        (Phase::Registered, Event::Announced) => Some((Phase::Reading, seq![ActionView::ReadLine])),
        (Phase::Reading, Event::Read { count, text }) => if count == 0 {
            Some((Phase::Closed, on_close(identity)))
        } else {
            Some((Phase::Reading, on_line(identity, text@)))
        },
        (Phase::Reading, Event::ReadFailed) => Some((Phase::Closed, on_close(identity))),
        _ => None,
    }
}

/// What a [`Connection`] stands for.
pub struct ConnectionView {
    pub identity: Seq<char>,
    pub phase: Phase,
}

/// One client's connection, from accept to close.
pub struct Connection {
    identity: ClientIdentity,
    phase: Phase,
}

impl View for Connection {
    type V = ConnectionView;

    closed spec fn view(&self) -> ConnectionView {
        ConnectionView { identity: self.identity@, phase: self.phase }
    }
}

impl Connection {
    /// The connection of `identity`, just accepted, with its first actions.
    pub fn accept(identity: ClientIdentity) -> (started: (Connection, Vec<Action>))
        ensures
            started.0@ == (ConnectionView { identity: identity@, phase: Phase::Accepted }),
            started.1.deep_view() == on_accept(),
    {
        let actions = vec![Action::SendWelcome { line: welcome() }];
        assert(actions.deep_view() =~= on_accept());
        (Connection { identity, phase: Phase::Accepted }, actions)
    }

    /// The client's identity.
    pub fn identity(&self) -> (identity: &ClientIdentity)
        ensures
            identity@ == self@.identity,
    {
        &self.identity
    }

    /// The phase that the connection is in.
    pub fn phase(&self) -> (phase: Phase)
        ensures
            phase == self@.phase,
    {
        self.phase
    }

    /// Whether the connection has closed: nothing is left to do for it.
    pub fn is_closed(&self) -> (closed: bool)
        ensures
            closed == (self@.phase == Phase::Closed),
    {
        match self.phase {
            Phase::Closed => true,
            _ => false,
        }
    }

    /// Takes the step that `event` calls for and answers with the actions to
    /// perform, in order. An event that the phase does not wait for leaves the
    /// connection as it is and is answered with `None`.
    pub fn step(&mut self, event: &Event) -> (actions: Option<Vec<Action>>)
        ensures
            final(self)@.identity == old(self)@.identity,
            match transition(old(self)@.phase, old(self)@.identity, *event) {
                Some((next, expected)) => final(self)@.phase == next && actions is Some
                    && actions->0.deep_view() == expected,
                None => final(self)@.phase == old(self)@.phase && actions is None,
            },
    {
        match self.phase {
            Phase::Accepted => match event {
                Event::Welcomed { .. } => {
                    self.phase = Phase::Registered;
                    let actions = vec![
                        Action::Register,
                        Action::Broadcast {
                            label: system_name(),
                            message: join_notice(self.identity.as_str()),
                        },
                    ];
                    assert(actions.deep_view() =~= on_register(self@.identity));
                    Some(actions)
                },
                _ => None,
            },
            Phase::Registered => match event {
                Event::Announced => {
                    self.phase = Phase::Reading;
                    let actions = vec![Action::ReadLine];
                    assert(actions.deep_view() =~= seq![ActionView::ReadLine]);
                    Some(actions)
                },
                _ => None,
            },
            Phase::Reading => match event {
                Event::Read { count, text } => {
                    if *count == 0 {
                        Some(self.close())
                    } else {
                        Some(self.relay(trim(text.as_str())))
                    }
                },
                Event::ReadFailed => Some(self.close()),
                _ => None,
            },
            Phase::Closed => None,
        }
    }

    /// The actions for `message`, which the client sent and which has been
    /// trimmed: an empty message is dropped, any other is relayed under the
    /// client's identity; either way the next line is read.
    pub fn relay(&self, message: &str) -> (actions: Vec<Action>)
        ensures
            actions.deep_view() == on_message(self@.identity, message@),
    {
        if message.is_empty() {
            let actions = vec![Action::ReadLine];
            assert(actions.deep_view() =~= on_message(self@.identity, message@));
            actions
        } else {
            let actions = vec![
                Action::Broadcast {
                    label: self.identity.as_str().to_owned(),
                    message: message.to_owned(),
                },
                Action::ReadLine,
            ];
            assert(actions.deep_view() =~= on_message(self@.identity, message@));
            actions
        }
    }

    /// Closes the connection.
    fn close(&mut self) -> (actions: Vec<Action>)
        ensures
            final(self)@ == (ConnectionView { phase: Phase::Closed, ..old(self)@ }),
            actions.deep_view() == on_close(old(self)@.identity),
    {
        self.phase = Phase::Closed;
        let actions = vec![
            Action::Deregister,
            Action::Broadcast {
                label: system_name(),
                message: leave_notice(self.identity.as_str()),
            },
        ];
        assert(actions.deep_view() =~= on_close(self@.identity));
        actions
    }
}

/// The phase that the connection of `identity` is in, and the actions that
/// it has asked for, after it went from `phase` through `events`, one step
/// for each. An event that a phase does not wait for is passed over.
pub open spec fn run(phase: Phase, identity: Seq<char>, events: Seq<Event>) -> (
    Phase,
    Seq<ActionView>,
)
    decreases events.len(),
{
    if events.len() == 0 {
        (phase, Seq::empty())
    } else {
        let (before, asked) = run(phase, identity, events.drop_last());
        match transition(before, identity, events.last()) {
            Some((next, actions)) => (next, asked + actions),
            None => (before, asked),
        }
    }
}

/// How often `action` stands in `actions`.
pub open spec fn occurrences(actions: Seq<ActionView>, action: ActionView) -> nat
    decreases actions.len(),
{
    if actions.len() == 0 {
        0
    } else {
        occurrences(actions.drop_last(), action) + if actions.last() == action {
            1nat
        } else {
            0nat
        }
    }
}

proof fn lemma_occurrences_add(first: Seq<ActionView>, second: Seq<ActionView>, action: ActionView)
    ensures
        occurrences(first + second, action) == occurrences(first, action) + occurrences(
            second,
            action,
        ),
    decreases second.len(),
{
    if second.len() == 0 {
        assert(first + second =~= first);
    } else {
        lemma_occurrences_add(first, second.drop_last(), action);
        assert((first + second).drop_last() =~= first + second.drop_last());
    }
}

/// What one step asks of the registry: a connection registers when it leaves
/// `Accepted`, deregisters when it enters `Closed`, and at no other step.
pub proof fn lemma_step_registers_once(phase: Phase, identity: Seq<char>, event: Event)
    requires
        transition(phase, identity, event) is Some,
    ensures
        ({
            let (next, actions) = transition(phase, identity, event)->0;
            &&& occurrences(actions, ActionView::Register) == if phase == Phase::Accepted {
                1nat
            } else {
                0nat
            }
            &&& occurrences(actions, ActionView::Deregister) == if next == Phase::Closed {
                1nat
            } else {
                0nat
            }
            &&& phase != Phase::Closed
            &&& next != Phase::Accepted
        }),
{
    let (next, actions) = transition(phase, identity, event)->0;
    reveal_with_fuel(occurrences, 3);
    assert(actions.len() <= 2);
    if actions.len() == 2 {
        assert(actions.drop_last().len() == 1);
        assert(actions.drop_last().drop_last().len() == 0);
        assert(actions.drop_last().last() == actions[0]);
    } else if actions.len() == 1 {
        assert(actions.drop_last().len() == 0);
    }
}

/// The entry lives with the connection. Whatever the events, a connection
/// has asked to be registered once as soon as it has left `Accepted`, and
/// never before; it has asked to be deregistered once when it is `Closed`, and
/// never before. So no connection closes with its entry left behind.
pub proof fn lemma_entry_lives_with_connection(identity: Seq<char>, events: Seq<Event>)
    ensures
        ({
            let (phase, asked) = run(Phase::Accepted, identity, events);
            &&& occurrences(asked, ActionView::Register) == if phase == Phase::Accepted {
                0nat
            } else {
                1nat
            }
            &&& occurrences(asked, ActionView::Deregister) == if phase == Phase::Closed {
                1nat
            } else {
                0nat
            }
        }),
    decreases events.len(),
{
    if events.len() == 0 {
    } else {
        lemma_entry_lives_with_connection(identity, events.drop_last());
        let (before, asked) = run(Phase::Accepted, identity, events.drop_last());
        if transition(before, identity, events.last()) is Some {
            let (next, actions) = transition(before, identity, events.last())->0;
            lemma_step_registers_once(before, identity, events.last());
            lemma_occurrences_add(asked, actions, ActionView::Register);
            lemma_occurrences_add(asked, actions, ActionView::Deregister);
        }
    }
}

/// How far a phase is along the life cycle.
pub open spec fn rank(phase: Phase) -> nat {
    match phase {
        Phase::Accepted => 0,
        Phase::Registered => 1,
        Phase::Reading => 2,
        Phase::Closed => 3,
    }
}

/// A connection never goes back: a step leads to the next phase, or, while
/// reading, to the same one; and from reading nothing but the close follows.
pub proof fn lemma_phases_advance(phase: Phase, identity: Seq<char>, event: Event)
    requires
        transition(phase, identity, event) is Some,
    ensures
        ({
            let (next, actions) = transition(phase, identity, event)->0;
            &&& rank(phase) <= rank(next) <= rank(phase) + 1
            &&& rank(next) == rank(phase) ==> phase == Phase::Reading
        }),
{
}

/// What is relayed for a client is what it sent, without the white space at
/// both ends, and never nothing: the message is under the client's own
/// identity, is not empty, and neither begins nor ends with white space.
pub proof fn lemma_relayed_message_is_trimmed(identity: Seq<char>, text: Seq<char>, i: int)
    requires
        0 <= i < on_line(identity, text).len(),
        on_line(identity, text)[i] is Broadcast,
    ensures
        on_line(identity, text)[i] == (ActionView::Broadcast {
            label: identity,
            message: trimmed(text),
        }),
        trimmed(text).len() > 0,
        !is_whitespace(trimmed(text).first()),
        !is_whitespace(trimmed(text).last()),
{
    let front = trim_start(text);
    lemma_trim_start(text);
    lemma_trim_end(front);
    assert(trimmed(text).first() == front.first());
}

/// A line that holds nothing but white space, the empty line with it, is
/// dropped: the connection goes on reading and nothing is relayed.
pub proof fn lemma_blank_line_is_dropped(identity: Seq<char>, count: usize, text: String)
    requires
        count > 0,
        is_blank(text@),
    ensures
        transition(Phase::Reading, identity, Event::Read { count, text }) == Some(
            (Phase::Reading, seq![ActionView::ReadLine]),
        ),
{
    lemma_blank_trims_to_nothing(text@);
}

/// A welcome line that could not be written stops nothing: the connection
/// registers all the same.
pub proof fn lemma_welcome_failure_is_ignored(identity: Seq<char>)
    ensures
        transition(Phase::Accepted, identity, Event::Welcomed { delivered: false }) == transition(
            Phase::Accepted,
            identity,
            Event::Welcomed { delivered: true },
        ),
        transition(Phase::Accepted, identity, Event::Welcomed { delivered: false }) is Some,
{
}

} // verus!
