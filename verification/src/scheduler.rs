//! CPU scheduling queues: first in first out, round robin, and shortest job first.
use vstd::prelude::*;
use std::collections::VecDeque;
use crate::process::{Process, ProcessView};

verus! {

/// The values of a list of processes.
pub open spec fn views(processes: Seq<Process>) -> Seq<ProcessView> {
    processes.map_values(|p: Process| p@)
}

/// The number of processes at the head of `queue` whose remaining burst is
/// not above `burst`.
pub open spec fn shorter_or_equal(queue: Seq<ProcessView>, burst: u64) -> int
    decreases queue.len(),
{
    if queue.len() == 0 || queue[0].remaining_burst > burst {
        0
    } else {
        1 + shorter_or_equal(queue.drop_first(), burst)
    }
}

/// Whether the remaining bursts of `queue` never decrease from one process
/// to the next.
pub open spec fn shortest_first(queue: Seq<ProcessView>) -> bool {
    forall|i: int, j: int|
        0 <= i <= j < queue.len() ==> (#[trigger] queue[i]).remaining_burst <= (
        #[trigger] queue[j]).remaining_burst
}

/// A queue of processes that wait for the CPU.
pub trait Scheduler {
    /// The waiting processes, in the order in which `next` hands them out.
    spec fn queue(&self) -> Seq<ProcessView>;

    /// The invariant of the scheduler.
    spec fn wf(&self) -> bool;

    /// The place in the queue that `push` gives a process.
    spec fn place(&self, p: ProcessView) -> int;

    /// The name of the policy.
    spec fn label(&self) -> Seq<char>;

    /// Admits a process.
    fn push(&mut self, p: Process)
        requires
            old(self).wf(),
        ensures
            final(self).wf(),
            0 <= old(self).place(p@) <= old(self).queue().len(),
            final(self).queue() == old(self).queue().insert(old(self).place(p@), p@),
    ;

    /// Hands out the process at the head of the queue, if there is one.
    fn next(&mut self) -> (p: Option<Process>)
        requires
            old(self).wf(),
        ensures
            final(self).wf(),
            match p {
                Some(head) => {
                    &&& old(self).queue().len() > 0
                    &&& head@ == old(self).queue()[0]
                    &&& final(self).queue() == old(self).queue().drop_first()
                },
                None => old(self).queue().len() == 0 && final(self).queue() == old(self).queue(),
            },
    ;

    /// Whether no process waits.
    fn is_empty(&self) -> (empty: bool)
        ensures
            empty == (self.queue().len() == 0),
    ;

    /// The number of waiting processes.
    fn len(&self) -> (n: usize)
        ensures
            n == self.queue().len(),
    ;

    /// The name of the policy.
    fn name(&self) -> (name: &str)
        ensures
            name@ == self.label(),
    ;
}

/// First in, first out.
pub struct FifoScheduler {
    queue: VecDeque<Process>,
}

impl FifoScheduler {
    /// A scheduler without processes.
    pub fn new() -> (s: Self)
        ensures
            s.wf(),
            s.queue() == Seq::<ProcessView>::empty(),
    {
        let s = Self { queue: VecDeque::new() };
        assert(s.queue() =~= Seq::<ProcessView>::empty());
        s
    }
}

impl Scheduler for FifoScheduler {
    closed spec fn queue(&self) -> Seq<ProcessView> {
        views(self.queue@)
    }

    open spec fn wf(&self) -> bool {
        true
    }

    open spec fn place(&self, p: ProcessView) -> int {
        self.queue().len() as int
    }

    open spec fn label(&self) -> Seq<char> {
        "FIFO"@
    }

    fn push(&mut self, p: Process) {
        self.queue.push_back(p);
        assert(self.queue() =~= old(self).queue().insert(old(self).queue().len() as int, p@));
    }

    fn next(&mut self) -> (p: Option<Process>) {
        let p = self.queue.pop_front();
        assert(p is Some ==> self.queue() =~= old(self).queue().drop_first());
        p
    }

    fn is_empty(&self) -> (empty: bool) {
        self.queue.len() == 0
    }

    fn len(&self) -> (n: usize) {
        self.queue.len()
    }

    fn name(&self) -> (name: &str) {
        "FIFO"
    }
}

/// Round robin with a fixed quantum.
pub struct RoundRobinScheduler {
    queue: VecDeque<Process>,
    quantum: u64,
}

impl RoundRobinScheduler {
    /// The time slice that each process gets in turn.
    pub closed spec fn time_slice(&self) -> u64 {
        self.quantum
    }

    /// A scheduler without processes.
    pub fn new(quantum: u64) -> (s: Self)
        ensures
            s.wf(),
            s.queue() == Seq::<ProcessView>::empty(),
            s.time_slice() == quantum,
    {
        let s = Self { queue: VecDeque::new(), quantum };
        assert(s.queue() =~= Seq::<ProcessView>::empty());
        s
    }

    /// The time slice that each process gets in turn.
    pub fn quantum(&self) -> (q: u64)
        ensures
            q == self.time_slice(),
    {
        self.quantum
    }
}

impl Scheduler for RoundRobinScheduler {
    closed spec fn queue(&self) -> Seq<ProcessView> {
        views(self.queue@)
    }

    open spec fn wf(&self) -> bool {
        true
    }

    open spec fn place(&self, p: ProcessView) -> int {
        self.queue().len() as int
    }

    open spec fn label(&self) -> Seq<char> {
        "Round Robin"@
    }

    fn push(&mut self, p: Process)
        ensures
            final(self).time_slice() == old(self).time_slice(),
    {
        self.queue.push_back(p);
        assert(self.queue() =~= old(self).queue().insert(old(self).queue().len() as int, p@));
    }

    fn next(&mut self) -> (p: Option<Process>)
        ensures
            final(self).time_slice() == old(self).time_slice(),
    {
        let p = self.queue.pop_front();
        assert(p is Some ==> self.queue() =~= old(self).queue().drop_first());
        p
    }

    fn is_empty(&self) -> (empty: bool) {
        self.queue.len() == 0
    }

    fn len(&self) -> (n: usize) {
        self.queue.len()
    }

    fn name(&self) -> (name: &str) {
        "Round Robin"
    }
}

/// Shortest job first, without preemption. Among processes with equal
/// remaining bursts the one admitted first runs first.
pub struct SjfScheduler {
    processes: Vec<Process>,
}

impl SjfScheduler {
    /// A scheduler without processes.
    pub fn new() -> (s: Self)
        ensures
            s.wf(),
            s.queue() == Seq::<ProcessView>::empty(),
    {
        let s = Self { processes: Vec::new() };
        assert(s.queue() =~= Seq::<ProcessView>::empty());
        s
    }
}

/// In a queue that is ordered by remaining burst, the processes whose burst
/// is not above `burst` are exactly those at the head, and their number is
/// at most the length of the queue.
pub proof fn lemma_shorter_or_equal(queue: Seq<ProcessView>, burst: u64)
    requires
        shortest_first(queue),
    ensures
        0 <= shorter_or_equal(queue, burst) <= queue.len(),
        forall|i: int|
            0 <= i < shorter_or_equal(queue, burst) ==> (#[trigger] queue[i]).remaining_burst
                <= burst,
        forall|i: int|
            shorter_or_equal(queue, burst) <= i < queue.len() ==> (
            #[trigger] queue[i]).remaining_burst > burst,
    decreases queue.len(),
{
    if queue.len() > 0 && queue[0].remaining_burst <= burst {
        let rest = queue.drop_first();
        assert forall|i: int, j: int| 0 <= i <= j < rest.len() implies (
        #[trigger] rest[i]).remaining_burst <= (#[trigger] rest[j]).remaining_burst by {
            assert(rest[i] == queue[i + 1] && rest[j] == queue[j + 1]);
        }
        lemma_shorter_or_equal(rest, burst);
        assert forall|i: int| 0 <= i < shorter_or_equal(queue, burst) implies (
        #[trigger] queue[i]).remaining_burst <= burst by {
            if i > 0 {
                assert(queue[i] == rest[i - 1]);
            }
        }
        assert forall|i: int| shorter_or_equal(queue, burst) <= i < queue.len() implies (
        #[trigger] queue[i]).remaining_burst > burst by {
            assert(queue[i] == rest[i - 1]);
        }
    } else if queue.len() > 0 {
        assert forall|i: int| 0 <= i < queue.len() implies (#[trigger] queue[i]).remaining_burst
            > burst by {
            assert(queue[0].remaining_burst <= queue[i].remaining_burst);
        }
    }
}

/// The only place at which the head of a queue holds the bursts that are
/// not above `burst` and the rest holds the others is the number of the former.
pub proof fn lemma_place_unique(queue: Seq<ProcessView>, burst: u64, place: int)
    requires
        shortest_first(queue),
        0 <= place <= queue.len(),
        forall|i: int| 0 <= i < place ==> (#[trigger] queue[i]).remaining_burst <= burst,
        forall|i: int| place <= i < queue.len() ==> (#[trigger] queue[i]).remaining_burst > burst,
    ensures
        place == shorter_or_equal(queue, burst),
{
    lemma_shorter_or_equal(queue, burst);
    let n = shorter_or_equal(queue, burst);
    if place < n {
        assert(queue[place].remaining_burst <= burst);
    } else if n < place {
        assert(queue[n].remaining_burst > burst);
    }
}

impl Scheduler for SjfScheduler {
    closed spec fn queue(&self) -> Seq<ProcessView> {
        views(self.processes@)
    }

    open spec fn wf(&self) -> bool {
        shortest_first(self.queue())
    }

    open spec fn place(&self, p: ProcessView) -> int {
        shorter_or_equal(self.queue(), p.remaining_burst)
    }

    open spec fn label(&self) -> Seq<char> {
        "SJF"@
    }

    fn push(&mut self, p: Process) {
        let ghost before = self.queue();
        let ghost admitted = p@;
        // The queue stays ordered by remaining burst, shortest first: the
        // process goes behind those that are not longer.
        let mut place: usize = self.processes.len();
        while place > 0 && self.processes[place - 1].remaining_burst > p.remaining_burst
            invariant
                place <= self.processes.len(),
                self.queue() == before,
                shortest_first(before),
                admitted == p@,
                forall|i: int|
                    place <= i < before.len() ==> (#[trigger] before[i]).remaining_burst
                        > admitted.remaining_burst,
            decreases place,
        {
            place -= 1;
        }
        proof {
            assert forall|i: int| 0 <= i < place implies (#[trigger] before[i]).remaining_burst
                <= admitted.remaining_burst by {
                assert(before[i].remaining_burst <= before[place - 1].remaining_burst);
            }
            lemma_place_unique(before, admitted.remaining_burst, place as int);
        }
        proof {
            let after = before.insert(place as int, admitted);
            assert(views(self.processes@.insert(place as int, p)) =~= after);
            assert forall|i: int, j: int| 0 <= i <= j < after.len() implies (
            #[trigger] after[i]).remaining_burst <= (#[trigger] after[j]).remaining_burst by {
                let a = if i < place {
                    i
                } else {
                    i - 1
                };
                let b = if j < place {
                    j
                } else {
                    j - 1
                };
                if i != place && j != place {
                    assert(after[i] == before[a] && after[j] == before[b]);
                } else if i == place && j != place {
                    assert(after[j] == before[b]);
                } else if j == place && i != place {
                    assert(after[i] == before[a]);
                }
            }
        }
        self.processes.insert(place, p);
    }

    fn next(&mut self) -> (p: Option<Process>) {
        if self.processes.len() == 0 {
            None
        } else {
            let ghost before = self.queue();
            proof {
                let after = before.drop_first();
                assert(views(self.processes@.remove(0)) =~= after);
                assert forall|i: int, j: int| 0 <= i <= j < after.len() implies (
                #[trigger] after[i]).remaining_burst <= (#[trigger] after[j]).remaining_burst by {
                    assert(after[i] == before[i + 1] && after[j] == before[j + 1]);
                }
            }
            let head = self.processes.remove(0);
            Some(head)
        }
    }

    fn is_empty(&self) -> (empty: bool) {
        self.processes.len() == 0
    }

    fn len(&self) -> (n: usize) {
        self.processes.len()
    }

    fn name(&self) -> (name: &str) {
        "SJF"
    }
}

} // verus!
