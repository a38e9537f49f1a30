//! The fan-out of one line to every registered client but its sender.
//!
//! A fan-out is planned under the registry's lock and carried out under the
//! same lock, one write after the other. The plan never changes with what a
//! write returns: a failed write is recorded and the next target is served.

use vstd::prelude::*;
use crate::identity::ClientIdentity;
use crate::registry::{lemma_others, others, ConnectionRegistry};
use crate::wire::{format_line, line_of};

verus! {

/// What a [`FanOut`] stands for.
pub struct FanOutView {
    /// The line that every target is sent, terminator included.
    pub line: Seq<char>,
    /// The identities that the line goes to, in the order of the writes.
    pub targets: Seq<Seq<char>>,
    /// For each write made so far, whether it succeeded.
    pub outcomes: Seq<bool>,
}

impl FanOutView {
    /// Whether every target has had its write.
    pub open spec fn done(self) -> bool {
        self.outcomes.len() >= self.targets.len()
    }

    /// The target of the next write, if one is left.
    pub open spec fn pending(self) -> Option<Seq<char>> {
        if self.outcomes.len() < self.targets.len() {
            Some(self.targets[self.outcomes.len() as int])
        } else {
            None
        }
    }

    /// The fan-out after the write to the pending target ended as `delivered`
    /// says. Where no target is pending, nothing changes.
    pub open spec fn recorded(self, delivered: bool) -> FanOutView {
        if self.outcomes.len() < self.targets.len() {
            FanOutView { outcomes: self.outcomes.push(delivered), ..self }
        } else {
            self
        }
    }

    /// The fan-out after one write for each of `results`, in turn.
    pub open spec fn recorded_all(self, results: Seq<bool>) -> FanOutView
        decreases results.len(),
    {
        if results.len() == 0 {
            self
        } else {
            self.recorded_all(results.drop_last()).recorded(results.last())
        }
    }
}

/// The targets whose write ended as `outcome` says, in the order of the
/// writes. A target without a recorded write is not among them.
pub open spec fn selected(targets: Seq<Seq<char>>, outcomes: Seq<bool>, outcome: bool) -> Seq<
    Seq<char>,
>
    decreases outcomes.len(),
{
    if outcomes.len() == 0 {
        Seq::empty()
    } else {
        let earlier = selected(targets, outcomes.drop_last(), outcome);
        if outcomes.len() <= targets.len() && outcomes.last() == outcome {
            earlier.push(targets[outcomes.len() - 1])
        } else {
            earlier
        }
    }
}

/// One line on its way to every client but its sender.
pub struct FanOut {
    line: String,
    targets: Vec<ClientIdentity>,
    outcomes: Vec<bool>,
}

impl View for FanOut {
    type V = FanOutView;

    closed spec fn view(&self) -> FanOutView {
        FanOutView {
            line: self.line@,
            targets: self.targets.deep_view(),
            outcomes: self.outcomes@,
        }
    }
}

/// Plans the fan-out of `message`, sent under the label `sender_name`, to
/// every client in `clients` but `sender_addr`. A sender that is not
/// registered excludes nobody. No write has been made yet.
pub fn broadcast_message<H>(
    sender_addr: &ClientIdentity,
    sender_name: &str,
    message: &str,
    clients: &ConnectionRegistry<H>,
) -> (fan_out: FanOut)
    requires
        clients.wf(),
    ensures
        fan_out@.line == line_of(sender_name@, message@),
        fan_out@.targets == others(clients.order(), sender_addr@),
        fan_out@.outcomes == Seq::<bool>::empty(),
        fan_out@.targets.no_duplicates(),
        !fan_out@.targets.contains(sender_addr@),
        fan_out@.targets.to_set() == clients@.dom().remove(sender_addr@),
        fan_out@.targets.len() == if clients@.contains_key(sender_addr@) {
            clients.order().len() - 1
        } else {
            clients.order().len() as int
        },
{
    let line = format_line(sender_name, message);
    let targets = clients.recipients(sender_addr);
    proof {
        lemma_others(clients.order(), sender_addr@);
        assert(clients@.dom() =~= clients.order().to_set());
    }
    FanOut { line, targets, outcomes: Vec::new() }
}

impl FanOut {
    /// The line to write to each target.
    pub fn line(&self) -> (line: &str)
        ensures
            line@ == self@.line,
    {
        self.line.as_str()
    }

    /// The number of targets.
    pub fn recipient_count(&self) -> (count: usize)
        ensures
            count == self@.targets.len(),
    {
        self.targets.len()
    }

    /// Whether every target has had its write.
    pub fn is_done(&self) -> (done: bool)
        ensures
            done == self@.done(),
    {
        self.outcomes.len() >= self.targets.len()
    }

    /// The target of the next write, if one is left.
    pub fn next_target(&self) -> (next: Option<&ClientIdentity>)
        ensures
            match next {
                Some(target) => self@.pending() == Some(target@),
                None => self@.pending() is None,
            },
    {
        let i: usize = self.outcomes.len();
        if i < self.targets.len() {
            Some(&self.targets[i])
        } else {
            None
        }
    }

    /// Records how the write to the pending target ended, and moves on to the
    /// next target whether it succeeded or not. Where no target is pending,
    /// nothing changes.
    pub fn record(&mut self, delivered: bool)
        ensures
            final(self)@ == old(self)@.recorded(delivered),
    {
        if self.outcomes.len() < self.targets.len() {
            self.outcomes.push(delivered);
        }
    }

    /// The targets whose write succeeded, in the order of the writes.
    pub fn delivered(&self) -> (reached: Vec<ClientIdentity>)
        ensures
            reached.deep_view() == selected(self@.targets, self@.outcomes, true),
    {
        self.select(true)
    }

    /// The targets whose write failed, in the order of the writes.
    pub fn failed(&self) -> (missed: Vec<ClientIdentity>)
        ensures
            missed.deep_view() == selected(self@.targets, self@.outcomes, false),
    {
        self.select(false)
    }

    fn select(&self, outcome: bool) -> (chosen: Vec<ClientIdentity>)
        ensures
            chosen.deep_view() == selected(self@.targets, self@.outcomes, outcome),
    {
        let mut chosen: Vec<ClientIdentity> = Vec::new();
        let mut i: usize = 0;
        while i < self.outcomes.len()
            invariant
                i <= self.outcomes.len(),
                chosen.deep_view() == selected(
                    self@.targets,
                    self@.outcomes.take(i as int),
                    outcome,
                ),
            decreases self.outcomes.len() - i,
        {
            let ghost before = chosen.deep_view();
            proof {
                assert(self@.outcomes.take(i + 1).drop_last() =~= self@.outcomes.take(i as int));
            }
            if i < self.targets.len() && self.outcomes[i] == outcome {
                let target = self.targets[i].clone();
                chosen.push(target);
                assert(chosen.deep_view() =~= before.push(target@));
            }
            i += 1;
        }
        assert(self@.outcomes.take(i as int) =~= self@.outcomes);
        chosen
    }
}

/// However the writes end, every target is served, each in its turn: the
/// write after `i` others goes to the i-th target, and after one write per
/// target the fan-out is done and holds the results as they came.
pub proof fn lemma_every_target_is_served(plan: FanOutView, results: Seq<bool>)
    requires
        plan.outcomes.len() == 0,
        results.len() <= plan.targets.len(),
    ensures
        plan.recorded_all(results) == (FanOutView { outcomes: results, ..plan }),
        results.len() < plan.targets.len() ==> plan.recorded_all(results).pending() == Some(
            plan.targets[results.len() as int],
        ),
        results.len() == plan.targets.len() ==> plan.recorded_all(results).done(),
    decreases results.len(),
{
    if results.len() == 0 {
        assert(plan.outcomes =~= results);
    } else {
        lemma_every_target_is_served(plan, results.drop_last());
        assert(results.drop_last().push(results.last()) =~= results);
    }
}

/// A target is among the delivered exactly when its write succeeded, and
/// among the failed exactly when its write failed: no write decides for
/// another target.
pub proof fn lemma_selected(targets: Seq<Seq<char>>, outcomes: Seq<bool>, outcome: bool)
    requires
        targets.no_duplicates(),
        outcomes.len() <= targets.len(),
    ensures
        forall|i: int|
            0 <= i < targets.len() ==> (selected(targets, outcomes, outcome).contains(
                #[trigger] targets[i],
            ) <==> (i < outcomes.len() && outcomes[i] == outcome)),
        forall|k: Seq<char>| selected(targets, outcomes, outcome).contains(k) ==> targets.contains(k),
        selected(targets, outcomes, outcome).no_duplicates(),
    decreases outcomes.len(),
{
    if outcomes.len() == 0 {
    } else {
        let earlier_outcomes = outcomes.drop_last();
        let earlier = selected(targets, earlier_outcomes, outcome);
        let last: int = outcomes.len() - 1;
        lemma_selected(targets, earlier_outcomes, outcome);
        let now = selected(targets, outcomes, outcome);
        if outcomes.last() == outcome {
            assert(now == earlier.push(targets[last]));
            assert(!earlier.contains(targets[last]));
            assert forall|i: int| 0 <= i < targets.len() implies (now.contains(#[trigger] targets[i])
                <==> (i < outcomes.len() && outcomes[i] == outcome)) by {
                if i < last {
                    assert(earlier_outcomes[i] == outcomes[i]);
                    if earlier.contains(targets[i]) {
                        let j: int = earlier.index_of(targets[i]);
                        assert(now[j] == targets[i]);
                    }
                    if now.contains(targets[i]) {
                        let j: int = now.index_of(targets[i]);
                        if j < earlier.len() {
                            assert(earlier[j] == targets[i]);
                        }
                    }
                } else if i == last {
                    assert(now[earlier.len() as int] == targets[i]);
                } else {
                    if now.contains(targets[i]) {
                        let j: int = now.index_of(targets[i]);
                        if j < earlier.len() {
                            assert(earlier[j] == targets[i]);
                        }
                    }
                }
            }
            assert forall|k: Seq<char>| now.contains(k) implies targets.contains(k) by {
                let j: int = now.index_of(k);
                if j < earlier.len() {
                    assert(earlier[j] == k);
                    assert(earlier.contains(k));
                }
            }
            assert forall|a: int, b: int| 0 <= a < now.len() && 0 <= b < now.len() && a != b implies now[a] != now[b] by {
                if a < earlier.len() {
                    assert(earlier[a] == now[a]);
                    assert(earlier.contains(now[a]));
                }
                if b < earlier.len() {
                    assert(earlier[b] == now[b]);
                    assert(earlier.contains(now[b]));
                }
            }
        } else {
            assert(now == earlier);
            assert forall|i: int| 0 <= i < targets.len() implies (now.contains(#[trigger] targets[i])
                <==> (i < outcomes.len() && outcomes[i] == outcome)) by {
                if i < last {
                    assert(earlier_outcomes[i] == outcomes[i]);
                }
            }
        }
    }
}

/// Isolation. Where the write to one target fails and the writes to all the
/// others succeed, the line is delivered to all the others, in their order.
pub proof fn lemma_failure_is_isolated(plan: FanOutView, results: Seq<bool>, failing: int)
    requires
        plan.outcomes.len() == 0,
        results.len() == plan.targets.len(),
        0 <= failing < results.len(),
        forall|i: int| 0 <= i < results.len() ==> (results[i] <==> i != failing),
    ensures
        plan.recorded_all(results).done(),
        selected(plan.targets, plan.recorded_all(results).outcomes, true) == plan.targets.remove(
            failing,
        ),
        selected(plan.targets, plan.recorded_all(results).outcomes, false) == seq![
            plan.targets[failing],
        ],
{
    lemma_every_target_is_served(plan, results);
    lemma_selected_with_one_failure(plan.targets, results, failing, results.len() as int);
    assert(results.take(results.len() as int) =~= results);
    assert(plan.targets.take(results.len() as int).remove(failing) =~= plan.targets.remove(failing));
}

proof fn lemma_selected_with_one_failure(
    targets: Seq<Seq<char>>,
    results: Seq<bool>,
    failing: int,
    n: int,
)
    requires
        results.len() == targets.len(),
        0 <= failing < results.len(),
        0 <= n <= results.len(),
        forall|i: int| 0 <= i < results.len() ==> (results[i] <==> i != failing),
    ensures
        selected(targets, results.take(n), true) == if n <= failing {
            targets.take(n)
        } else {
            targets.take(n).remove(failing)
        },
        selected(targets, results.take(n), false) == if n <= failing {
            Seq::<Seq<char>>::empty()
        } else {
            seq![targets[failing]]
        },
    decreases n,
{
    if n == 0 {
        assert(targets.take(0) =~= Seq::<Seq<char>>::empty());
    } else {
        lemma_selected_with_one_failure(targets, results, failing, n - 1);
        assert(results.take(n).drop_last() =~= results.take(n - 1));
        assert(results.take(n).last() == results[n - 1]);
        if n - 1 < failing {
            assert(targets.take(n - 1).push(targets[n - 1]) =~= targets.take(n));
        } else if n - 1 == failing {
            assert(targets.take(n).remove(failing) =~= targets.take(n - 1));
            assert(Seq::<Seq<char>>::empty().push(targets[failing]) =~= seq![targets[failing]]);
        } else {
            assert(targets.take(n - 1).remove(failing).push(targets[n - 1]) =~= targets.take(
                n,
            ).remove(failing));
        }
    }
}

} // verus!
