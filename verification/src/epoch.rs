//! Epochs at a node: a barrier that closes an epoch comes on every input
//! port, and the node commits the epoch when the barrier has come on all of
//! them. A port on which the barrier has come is closed until then, so
//! that no change of the next epoch is taken in before the epoch is
//! committed.

use vstd::prelude::*;
use crate::errors::{ExecutionError, PortHandle};

verus! {

/// What a node does when a barrier has come.
#[derive(Clone, Copy, Debug, PartialEq, Eq, Structural)]
pub enum BarrierAction {
    /// The barrier has not come on every port yet: go on with the open
    /// ports.
    Wait,
    /// The barrier has come on every port: commit the epoch and send the
    /// barrier on.
    Commit(u64),
}

/// The epochs of the input ports of a node.
#[derive(Debug)]
pub struct EpochTracker {
    /// The input ports.
    pub ports: Vec<PortHandle>,
    /// For every port, the epoch that its last barrier closed.
    pub closed: Vec<u64>,
    /// The last epoch that was committed.
    pub committed: u64,
}

/// The place of the first of the first `n` ports that is `port`.
pub open spec fn port_index(ports: Seq<PortHandle>, port: PortHandle, n: nat) -> Option<usize>
    decreases n,
{
    if n == 0 {
        None
    } else {
        match port_index(ports, port, (n - 1) as nat) {
            Some(i) => Some(i),
            None => if ports[n - 1] == port {
                Some((n - 1) as usize)
            } else {
                None
            },
        }
    }
}

proof fn lemma_port_index_found(ports: Seq<PortHandle>, port: PortHandle, n: nat, m: nat)
    requires
        n <= m,
        port_index(ports, port, n) is Some,
    ensures
        port_index(ports, port, m) == port_index(ports, port, n),
    decreases m - n,
{
    if n < m {
        lemma_port_index_found(ports, port, n, (m - 1) as nat);
    }
}

proof fn lemma_port_index_bound(ports: Seq<PortHandle>, port: PortHandle, n: nat)
    requires
        n <= ports.len() <= usize::MAX,
    ensures
        port_index(ports, port, n) matches Some(i) ==> i < n && ports[i as int] == port,
    decreases n,
{
    if n > 0 {
        lemma_port_index_bound(ports, port, (n - 1) as nat);
    }
}

impl EpochTracker {
    /// Whether the tracker is in order: every port has an epoch, and no
    /// port is behind the committed epoch or more than one epoch ahead of
    /// it.
    pub open spec fn wf(&self) -> bool {
        &&& self.closed@.len() == self.ports@.len()
        &&& forall|i: int|
            0 <= i < self.closed@.len() ==> self.committed <= (#[trigger] self.closed@[i])
                <= self.committed + 1
    }

    /// The epoch that is open: the one after the last that was committed.
    pub open spec fn current(&self) -> int {
        self.committed + 1
    }

    /// Whether changes are taken in on the port: whether the barrier of the
    /// open epoch has not come on it yet.
    pub open spec fn is_open(&self, port: PortHandle) -> bool {
        port_is_open(self@, port)
    }

    /// A tracker for the given ports, before the first epoch is closed.
    pub fn new(ports: Vec<PortHandle>) -> (res: Self)
        ensures
            res.wf(),
            res@ == initial_tracker(ports@),
    {
        let mut closed: Vec<u64> = Vec::new();
        let mut i: usize = 0;
        while i < ports.len()
            invariant
                i <= ports.len(),
                closed@.len() == i,
                forall|j: int| 0 <= j < i ==> closed@[j] == 0,
            decreases ports.len() - i,
        {
            closed.push(0);
            i += 1;
        }
        assert(closed@ =~= Seq::new(ports@.len(), |i: int| 0u64));
        EpochTracker { ports, closed, committed: 0 }
    }

    /// The place of the port among the input ports.
    fn find(&self, port: PortHandle) -> (res: Option<usize>)
        ensures
            res == port_index(self.ports@, port, self.ports@.len()),
            res matches Some(i) ==> i < self.ports@.len(),
    {
        let mut i: usize = 0;
        while i < self.ports.len()
            invariant
                i <= self.ports.len(),
                port_index(self.ports@, port, i as nat) is None,
            decreases self.ports.len() - i,
        {
            if self.ports[i] == port {
                proof {
                    lemma_port_index_found(self.ports@, port, (i + 1) as nat, self.ports@.len());
                }
                return Some(i);
            }
            i += 1;
        }
        None
    }

    /// Whether the tracker is in order and has an epoch left to open.
    pub fn is_in_order(&self) -> (res: bool)
        ensures
            res == (self.wf() && self.committed < u64::MAX),
    {
        if self.closed.len() != self.ports.len() || self.committed == u64::MAX {
            return false;
        }
        let mut i: usize = 0;
        while i < self.closed.len()
            invariant
                i <= self.closed@.len(),
                self.committed < u64::MAX,
                forall|j: int|
                    0 <= j < i ==> self.committed <= (#[trigger] self.closed@[j]) <= self.committed
                        + 1,
            decreases self.closed.len() - i,
        {
            if self.closed[i] < self.committed || self.closed[i] > self.committed + 1 {
                return false;
            }
            i += 1;
        }
        true
    }

    /// Whether changes are taken in on the port.
    pub fn takes(&self, port: PortHandle) -> (res: bool)
        requires
            self.wf(),
        ensures
            res == self.is_open(port),
    {
        match self.find(port) {
            Some(i) => self.closed[i] == self.committed,
            None => false,
        }
    }

    /// A change has come on a port. Gives the epoch that it belongs to: the
    /// open one. A change on a port that is no input port, or on which the
    /// barrier of the open epoch has come already, is refused: it belongs
    /// to a later epoch and must wait.
    pub fn on_operation(&self, port: PortHandle) -> (res: Result<u64, ExecutionError>)
        requires
            self.wf(),
            self.committed < u64::MAX,
        ensures
            self.is_open(port) ==> res == Ok::<u64, ExecutionError>((self.committed + 1) as u64),
            !self.is_open(port) ==> (res matches Err(ExecutionError::InvalidPortHandle(p)) && p
                == port),
            res is Ok <==> after_event(self@, PortEvent::Operation(port)) is Some,
    {
        match self.find(port) {
            Some(i) => {
                if self.closed[i] == self.committed {
                    Ok(self.committed + 1)
                } else {
                    Err(ExecutionError::InvalidPortHandle(port))
                }
            },
            None => Err(ExecutionError::InvalidPortHandle(port)),
        }
    }

    /// The barrier of an epoch has come on a port. The port is closed. When
    /// the barrier has come on every port the epoch is committed and every
    /// port is open again. A barrier on a port that is not open, or of
    /// another epoch than the open one, is refused and changes nothing.
    pub fn on_barrier(&mut self, port: PortHandle, epoch: u64) -> (res: Result<
        BarrierAction,
        ExecutionError,
    >)
        requires
            old(self).wf(),
            old(self).committed < u64::MAX,
        ensures
            final(self).wf(),
            final(self).ports == old(self).ports,
            !old(self).is_open(port) ==> (res matches Err(ExecutionError::InvalidPortHandle(p))
                && p == port && *final(self) == *old(self)),
            old(self).is_open(port) && epoch != old(self).committed + 1 ==> (res matches Err(
                ExecutionError::InconsistentCheckpointMetadata,
            ) && *final(self) == *old(self)),
            old(self).is_open(port) && epoch == old(self).committed + 1 ==> {
                let i = port_index(old(self).ports@, port, old(self).ports@.len())->Some_0 as int;
                let closed = old(self).closed@.update(i, epoch);
                let all = forall|j: int| 0 <= j < closed.len() ==> closed[j] == epoch;
                &&& final(self).closed@ == closed
                &&& all ==> res == Ok::<BarrierAction, ExecutionError>(BarrierAction::Commit(epoch))
                    && final(self).committed == epoch
                &&& !all ==> res == Ok::<BarrierAction, ExecutionError>(BarrierAction::Wait)
                    && final(self).committed == old(self).committed
            },
            match after_event(old(self)@, PortEvent::Barrier(port, epoch)) {
                Some(s) => res is Ok && final(self)@ == s,
                None => res is Err,
            },
    {
        let i = match self.find(port) {
            Some(i) => i,
            None => {
                return Err(ExecutionError::InvalidPortHandle(port));
            },
        };
        if self.closed[i] != self.committed {
            return Err(ExecutionError::InvalidPortHandle(port));
        }
        if epoch != self.committed + 1 {
            return Err(ExecutionError::InconsistentCheckpointMetadata);
        }
        self.closed.set(i, epoch);
        let mut all = true;
        let mut j: usize = 0;
        while j < self.closed.len()
            invariant
                j <= self.closed@.len(),
                all == (forall|k: int| 0 <= k < j ==> self.closed@[k] == epoch),
            decreases self.closed.len() - j,
        {
            if self.closed[j] != epoch {
                all = false;
            }
            j += 1;
        }
        if all {
            self.committed = epoch;
            Ok(BarrierAction::Commit(epoch))
        } else {
            Ok(BarrierAction::Wait)
        }
    }
}

/// What comes on an input port of a node.
pub enum PortEvent {
    /// A change.
    Operation(PortHandle),
    /// The barrier of an epoch.
    Barrier(PortHandle, u64),
}

/// The epochs of the input ports of a node, as values.
pub struct TrackerValue {
    pub ports: Seq<PortHandle>,
    pub closed: Seq<u64>,
    pub committed: u64,
}

impl View for EpochTracker {
    type V = TrackerValue;

    open spec fn view(&self) -> TrackerValue {
        TrackerValue { ports: self.ports@, closed: self.closed@, committed: self.committed }
    }
}

/// Whether something can come on the port: whether the barrier of the open
/// epoch has not come on it yet.
pub open spec fn port_is_open(s: TrackerValue, port: PortHandle) -> bool {
    match port_index(s.ports, port, s.ports.len()) {
        Some(i) => s.closed[i as int] == s.committed,
        None => false,
    }
}

/// The tracker after something has come on a port, or nothing where the
/// tracker refuses it: a change leaves the tracker as it is, a barrier
/// closes its port and, when it has come on every port, commits its epoch.
pub open spec fn after_event(s: TrackerValue, event: PortEvent) -> Option<TrackerValue> {
    match event {
        PortEvent::Operation(port) => if port_is_open(s, port) {
            Some(s)
        } else {
            None
        },
        PortEvent::Barrier(port, epoch) => if port_is_open(s, port) && epoch == s.committed + 1 {
            let i = port_index(s.ports, port, s.ports.len())->Some_0 as int;
            let closed = s.closed.update(i, epoch);
            Some(
                TrackerValue {
                    closed,
                    committed: if forall|j: int| 0 <= j < closed.len() ==> closed[j] == epoch {
                        epoch
                    } else {
                        s.committed
                    },
                    ..s
                },
            )
        } else {
            None
        },
    }
}

/// The tracker after all that has come, in order, or nothing where the
/// tracker refuses any of it.
pub open spec fn after_events(s: TrackerValue, events: Seq<PortEvent>) -> Option<TrackerValue>
    decreases events.len(),
{
    if events.len() == 0 {
        Some(s)
    } else {
        match after_events(s, events.drop_last()) {
            None => None,
            Some(before) => after_event(before, events.last()),
        }
    }
}

/// How many barriers have come on the port at the place `i`.
pub open spec fn barriers_on(ports: Seq<PortHandle>, events: Seq<PortEvent>, i: int) -> nat
    decreases events.len(),
{
    if events.len() == 0 {
        0
    } else {
        barriers_on(ports, events.drop_last(), i) + match events.last() {
            PortEvent::Barrier(port, _) => if port_index(ports, port, ports.len()) == Some(
                i as usize,
            ) {
                1nat
            } else {
                0nat
            },
            PortEvent::Operation(_) => 0nat,
        }
    }
}

/// The tracker before anything has come.
pub open spec fn initial_tracker(ports: Seq<PortHandle>) -> TrackerValue {
    TrackerValue { ports, closed: Seq::new(ports.len(), |i: int| 0u64), committed: 0 }
}

/// Epochs are taken in one after the other. Of all that a node has taken
/// in, in whatever order the ports were served: the epoch that a port has
/// closed is the number of barriers that have come on it; no port is
/// behind the committed epoch or more than one epoch ahead of it; and so a
/// change that is taken in next on a port, which must be open, belongs to
/// the epoch after the last that was committed: every change of an
/// earlier epoch came before that epoch was committed, and no change of a
/// later epoch comes before this one is.
pub proof fn lemma_epochs_in_order(ports: Seq<PortHandle>, events: Seq<PortEvent>)
    requires
        ports.len() <= usize::MAX,
        after_events(initial_tracker(ports), events) is Some,
    ensures
        ({
            let s = after_events(initial_tracker(ports), events)->Some_0;
            &&& s.ports == ports
            &&& s.closed.len() == ports.len()
            &&& forall|i: int|
                0 <= i < ports.len() ==> (#[trigger] s.closed[i]) == barriers_on(ports, events, i)
            &&& forall|i: int|
                0 <= i < ports.len() ==> s.committed <= (#[trigger] s.closed[i]) <= s.committed + 1
            &&& forall|port: PortHandle|
                port_is_open(s, port) ==> barriers_on(
                    ports,
                    events,
                    #[trigger] port_index(ports, port, ports.len())->Some_0 as int,
                ) == s.committed
        }),
    decreases events.len(),
{
    if events.len() > 0 {
        lemma_epochs_in_order(ports, events.drop_last());
        let before = after_events(initial_tracker(ports), events.drop_last())->Some_0;
        let s = after_events(initial_tracker(ports), events)->Some_0;
        match events.last() {
            PortEvent::Operation(port) => {},
            PortEvent::Barrier(port, epoch) => {
                lemma_port_index_bound(ports, port, ports.len());
                let k = port_index(ports, port, ports.len())->Some_0 as int;
                assert forall|i: int| 0 <= i < ports.len() implies (#[trigger] s.closed[i])
                    == barriers_on(ports, events, i) by {
                    assert(before.closed[i] == barriers_on(ports, events.drop_last(), i));
                }
                assert forall|i: int| 0 <= i < ports.len() implies s.committed <= (
                #[trigger] s.closed[i]) <= s.committed + 1 by {
                    assert(before.committed <= before.closed[i] <= before.committed + 1);
                }
            },
        }
        assert forall|port: PortHandle|
            port_is_open(s, port) implies barriers_on(
            ports,
            events,
            #[trigger] port_index(ports, port, ports.len())->Some_0 as int,
        ) == s.committed by {
            lemma_port_index_bound(ports, port, ports.len());
        }
    } else {
        assert forall|port: PortHandle|
            port_is_open(initial_tracker(ports), port) implies barriers_on(
            ports,
            events,
            #[trigger] port_index(ports, port, ports.len())->Some_0 as int,
        ) == 0 by {}
    }
}

/// An epoch is committed with the last of its barriers, and no earlier:
/// of all that a node with input ports has taken in, the number of epochs
/// that are committed is the least number of barriers that have come on
/// any port. So whatever belongs to an epoch is committed as soon as the
/// barrier of the epoch has come on every port.
pub proof fn lemma_epoch_commits_with_last_barrier(ports: Seq<PortHandle>, events: Seq<PortEvent>)
    requires
        0 < ports.len() <= usize::MAX,
        after_events(initial_tracker(ports), events) is Some,
    ensures
        ({
            let s = after_events(initial_tracker(ports), events)->Some_0;
            &&& forall|i: int|
                0 <= i < ports.len() ==> s.committed <= #[trigger] barriers_on(ports, events, i)
            &&& exists|i: int|
                0 <= i < ports.len() && s.committed == #[trigger] barriers_on(ports, events, i)
        }),
    decreases events.len(),
{
    lemma_epochs_in_order(ports, events);
    let s = after_events(initial_tracker(ports), events)->Some_0;
    assert forall|i: int| 0 <= i < ports.len() implies s.committed <= #[trigger] barriers_on(
        ports,
        events,
        i,
    ) by {
        assert(s.closed[i] == barriers_on(ports, events, i));
    }
    if events.len() > 0 {
        lemma_epoch_commits_with_last_barrier(ports, events.drop_last());
        lemma_epochs_in_order(ports, events.drop_last());
        let before = after_events(initial_tracker(ports), events.drop_last())->Some_0;
        let w = choose|i: int|
            0 <= i < ports.len() && before.committed == #[trigger] barriers_on(
                ports,
                events.drop_last(),
                i,
            );
        assert(before.closed[w] == barriers_on(ports, events.drop_last(), w));
        match events.last() {
            PortEvent::Operation(port) => {
                assert(barriers_on(ports, events, w) == s.committed);
            },
            PortEvent::Barrier(port, epoch) => {
                lemma_port_index_bound(ports, port, ports.len());
                if s.committed == epoch {
                    assert(s.closed[0] == barriers_on(ports, events, 0));
                    assert(barriers_on(ports, events, 0) == s.committed);
                } else {
                    let j = choose|j: int| 0 <= j < s.closed.len() && s.closed[j] != epoch;
                    assert(s.committed <= s.closed[j] <= s.committed + 1);
                    assert(s.closed[j] == barriers_on(ports, events, j));
                    assert(barriers_on(ports, events, j) == s.committed);
                }
            },
        }
    } else {
        assert(barriers_on(ports, events, 0) == 0);
    }
}

} // verus!
