//! The state of the simulated kernel: processes, the CPU scheduler, paged
//! memory, the heap, and a producer-consumer buffer.
use vstd::prelude::*;
use vstd::arithmetic::power2::is_pow2;
use vstd::std_specs::hash::spec_keys_iter;
use vstd::std_specs::iter::IteratorSpec;
use std::collections::HashMap;
use crate::modules::ipc::sync::{BufferError, BufferView, ProducerConsumerBuffer};
use crate::modules::mem::buddy::{BuddyAllocator, BuddyError, BuddyView};
use crate::modules::mem::paging::{
    Frame, FrameManager, FrameManagerView, PagingError, ReplacementPolicy,
};
use crate::process::{Process, ProcessState, ProcessView};
use crate::scheduler::{
    shorter_or_equal, FifoScheduler, RoundRobinScheduler, Scheduler, SjfScheduler,
};

verus! {

broadcast use vstd::std_specs::hash::group_hash_axioms;

/// The CPU scheduling policies.
#[derive(Debug, Clone, Copy, PartialEq, Eq, Structural)]
pub enum SchedulerType {
    /// Round robin with the given quantum.
    RoundRobin(u64),
    /// Shortest job first.
    SJF,
    /// First in, first out.
    FIFO,
}

/// The scheduler of a kernel: one of the three policies.
pub enum ActiveScheduler {
    Fifo(FifoScheduler),
    RoundRobin(RoundRobinScheduler),
    Sjf(SjfScheduler),
}

impl ActiveScheduler {
    /// The policy of the scheduler.
    pub open spec fn kind(&self) -> SchedulerType {
        match self {
            ActiveScheduler::Fifo(_) => SchedulerType::FIFO,
            ActiveScheduler::RoundRobin(s) => SchedulerType::RoundRobin(s.time_slice()),
            ActiveScheduler::Sjf(_) => SchedulerType::SJF,
        }
    }
}

impl Scheduler for ActiveScheduler {
    open spec fn queue(&self) -> Seq<ProcessView> {
        match self {
            ActiveScheduler::Fifo(s) => s.queue(),
            ActiveScheduler::RoundRobin(s) => s.queue(),
            ActiveScheduler::Sjf(s) => s.queue(),
        }
    }

    open spec fn wf(&self) -> bool {
        match self {
            ActiveScheduler::Fifo(s) => s.wf(),
            ActiveScheduler::RoundRobin(s) => s.wf(),
            ActiveScheduler::Sjf(s) => s.wf(),
        }
    }

    open spec fn place(&self, p: ProcessView) -> int {
        match self {
            ActiveScheduler::Fifo(s) => s.place(p),
            ActiveScheduler::RoundRobin(s) => s.place(p),
            ActiveScheduler::Sjf(s) => s.place(p),
        }
    }

    open spec fn label(&self) -> Seq<char> {
        match self {
            ActiveScheduler::Fifo(s) => s.label(),
            ActiveScheduler::RoundRobin(s) => s.label(),
            ActiveScheduler::Sjf(s) => s.label(),
        }
    }

    fn push(&mut self, p: Process)
        ensures
            final(self).kind() == old(self).kind(),
    {
        match self {
            ActiveScheduler::Fifo(s) => s.push(p),
            ActiveScheduler::RoundRobin(s) => s.push(p),
            ActiveScheduler::Sjf(s) => s.push(p),
        }
    }

    fn next(&mut self) -> (p: Option<Process>)
        ensures
            final(self).kind() == old(self).kind(),
    {
        match self {
            ActiveScheduler::Fifo(s) => s.next(),
            ActiveScheduler::RoundRobin(s) => s.next(),
            ActiveScheduler::Sjf(s) => s.next(),
        }
    }

    fn is_empty(&self) -> (empty: bool) {
        match self {
            ActiveScheduler::Fifo(s) => s.is_empty(),
            ActiveScheduler::RoundRobin(s) => s.is_empty(),
            ActiveScheduler::Sjf(s) => s.is_empty(),
        }
    }

    fn len(&self) -> (n: usize) {
        match self {
            ActiveScheduler::Fifo(s) => s.len(),
            ActiveScheduler::RoundRobin(s) => s.len(),
            ActiveScheduler::Sjf(s) => s.len(),
        }
    }

    fn name(&self) -> (name: &str) {
        match self {
            ActiveScheduler::Fifo(s) => s.name(),
            ActiveScheduler::RoundRobin(s) => s.name(),
            ActiveScheduler::Sjf(s) => s.name(),
        }
    }
}

/// Why the kernel refused a request.
#[derive(Debug, Clone, Copy, PartialEq, Eq, Structural)]
pub enum KernelError {
    /// No live process has this number.
    ProcessNotFound(u32),
    /// The process is neither running nor ready, so it cannot be suspended.
    CannotSuspend(u32, ProcessState),
    /// The process is not blocked, so it cannot be resumed.
    NotBlocked(u32, ProcessState),
    /// The producer-consumer buffer refused.
    Buffer(BufferError),
    /// The heap allocator refused.
    Heap(BuddyError),
    /// The page reference could not be resolved.
    Memory(PagingError),
}

/// What the CPU did in one unit of time.
#[derive(Debug, Clone, Copy, PartialEq, Eq, Structural)]
pub enum StepOutcome {
    /// No process was waiting.
    Idle,
    /// Process `pid` ran for `used` units; `remaining` are left of its
    /// burst, and `finished` says whether it has terminated.
    Ran { pid: u32, used: u64, remaining: u64, finished: bool },
}

/// The mathematical value of a [`KernelState`].
pub struct KernelView {
    /// The live processes, by number.
    pub processes: Map<u32, ProcessView>,
    pub next_pid: u32,
    /// The policy of the scheduler in use.
    pub policy: SchedulerType,
    /// The processes that wait for the CPU, the next to run first.
    pub queue: Seq<ProcessView>,
    /// The policy that the kernel was set up with.
    pub scheduler_type: SchedulerType,
    pub current_process: Option<u32>,
    pub memory: FrameManagerView,
    pub heap: BuddyView,
    pub buffer: BufferView,
    pub current_time: u64,
    /// The terminated processes, in the order of termination.
    pub finished: Seq<ProcessView>,
}

/// Size of the heap of a kernel.
pub const HEAP_SIZE: usize = 4096;

/// Size of the smallest heap block.
pub const HEAP_MIN_BLOCK: usize = 64;

/// Capacity of the producer-consumer buffer of a kernel.
pub const BUFFER_CAPACITY: usize = 5;

/// Where a scheduler with policy `policy` puts `p` in `queue`.
pub open spec fn place_in(policy: SchedulerType, queue: Seq<ProcessView>, p: ProcessView) -> int {
    match policy {
        SchedulerType::SJF => shorter_or_equal(queue, p.remaining_burst),
        _ => queue.len() as int,
    }
}

/// `queue` after a scheduler with policy `policy` has admitted `p`.
pub open spec fn admitted(policy: SchedulerType, queue: Seq<ProcessView>, p: ProcessView) -> Seq<
    ProcessView,
> {
    queue.insert(place_in(policy, queue, p), p)
}

impl KernelView {
    /// A kernel at time zero without processes.
    pub open spec fn initial(scheduler_type: SchedulerType, num_frames: usize) -> KernelView {
        KernelView {
            processes: Map::empty(),
            next_pid: 1,
            policy: scheduler_type,
            queue: Seq::empty(),
            scheduler_type,
            current_process: None,
            memory: FrameManagerView::initial(num_frames),
            heap: BuddyView::fresh(HEAP_SIZE, HEAP_MIN_BLOCK),
            buffer: BufferView::fresh(BUFFER_CAPACITY),
            current_time: 0,
            finished: Seq::empty(),
        }
    }

    /// The process that `create_process` makes.
    pub open spec fn newcomer(self, cpu_burst: u64, memory_req: usize) -> ProcessView {
        ProcessView::fresh(self.next_pid, cpu_burst, memory_req, self.current_time)
    }

    /// The kernel after a process with the given burst and memory request
    /// has been created: it gets the next number and a page table, and waits
    /// for the CPU.
    pub open spec fn create_process(self, cpu_burst: u64, memory_req: usize) -> KernelView {
        let process = self.newcomer(cpu_burst, memory_req);
        KernelView {
            next_pid: (self.next_pid + 1) as u32,
            memory: self.memory.with_table(self.next_pid),
            queue: admitted(self.policy, self.queue, process),
            processes: self.processes.insert(self.next_pid, process),
            ..self
        }
    }

    /// The kernel after the request to kill `pid`, and the answer. A live
    /// process terminates now and joins the terminated ones.
    pub open spec fn kill_process(self, pid: u32) -> (KernelView, Result<(), KernelError>) {
        if self.processes.contains_key(pid) {
            (
                KernelView {
                    processes: self.processes.remove(pid),
                    finished: self.finished.push(
                        ProcessView {
                            finish_time: Some(self.current_time),
                            state: ProcessState::Terminated,
                            ..self.processes[pid]
                        },
                    ),
                    ..self
                },
                Ok(()),
            )
        } else {
            (self, Err(KernelError::ProcessNotFound(pid)))
        }
    }

    /// The kernel after the request to suspend `pid`, and the answer. A
    /// process that runs or is ready becomes blocked.
    pub open spec fn suspend_process(self, pid: u32) -> (KernelView, Result<(), KernelError>) {
        if !self.processes.contains_key(pid) {
            (self, Err(KernelError::ProcessNotFound(pid)))
        } else if self.processes[pid].state == ProcessState::Running || self.processes[pid].state
            == ProcessState::Ready {
            (
                KernelView {
                    processes: self.processes.insert(
                        pid,
                        ProcessView { state: ProcessState::Blocked, ..self.processes[pid] },
                    ),
                    ..self
                },
                Ok(()),
            )
        } else {
            (self, Err(KernelError::CannotSuspend(pid, self.processes[pid].state)))
        }
    }

    /// The kernel after the request to resume `pid`, and the answer. A
    /// blocked process becomes ready and waits for the CPU again.
    pub open spec fn resume_process(self, pid: u32) -> (KernelView, Result<(), KernelError>) {
        if !self.processes.contains_key(pid) {
            (self, Err(KernelError::ProcessNotFound(pid)))
        } else if self.processes[pid].state == ProcessState::Blocked {
            let ready = ProcessView { state: ProcessState::Ready, ..self.processes[pid] };
            (
                KernelView {
                    processes: self.processes.insert(pid, ready),
                    queue: admitted(self.policy, self.queue, ready),
                    ..self
                },
                Ok(()),
            )
        } else {
            (self, Err(KernelError::NotBlocked(pid, self.processes[pid].state)))
        }
    }

    /// The kernel after one unit of time, and what the CPU did in it. The
    /// process at the head of the queue runs for one unit, or for none where
    /// its burst is used up. One whose burst is used up then terminates, and
    /// joins the terminated ones if it is still live. Any other is live and
    /// ready afterwards, and waits for the CPU again.
    pub open spec fn step(self) -> (KernelView, StepOutcome) {
        let now = (self.current_time + 1) as u64;
        if self.queue.len() == 0 {
            (KernelView { current_time: now, ..self }, StepOutcome::Idle)
        } else {
            let head = self.queue[0];
            let rest = self.queue.drop_first();
            let used: u64 = if head.remaining_burst >= 1 {
                1
            } else {
                0
            };
            let remaining = (head.remaining_burst - used) as u64;
            let ran = ProcessView {
                start_time: if head.start_time is None {
                    Some(now)
                } else {
                    head.start_time
                },
                remaining_burst: remaining,
                ..head
            };
            if remaining == 0 {
                let done = ProcessView {
                    state: ProcessState::Terminated,
                    finish_time: Some(now),
                    ..ran
                };
                (
                    KernelView {
                        current_time: now,
                        queue: rest,
                        processes: self.processes.remove(head.pid),
                        finished: if self.processes.contains_key(head.pid) {
                            self.finished.push(done)
                        } else {
                            self.finished
                        },
                        ..self
                    },
                    StepOutcome::Ran { pid: head.pid, used, remaining, finished: true },
                )
            } else {
                let ready = ProcessView { state: ProcessState::Ready, ..ran };
                (
                    KernelView {
                        current_time: now,
                        queue: admitted(self.policy, rest, ready),
                        processes: self.processes.insert(head.pid, ready),
                        ..self
                    },
                    StepOutcome::Ran { pid: head.pid, used, remaining, finished: false },
                )
            }
        }
    }

    /// Whether every live process is filed under its own number.
    pub open spec fn filed(self) -> bool {
        forall|pid: u32| #[trigger]
            self.processes.contains_key(pid) ==> self.processes[pid].pid == pid
    }

    /// The kernel after `steps` units of time.
    pub open spec fn ticked(self, steps: nat) -> KernelView
        decreases steps,
    {
        if steps == 0 {
            self
        } else {
            self.ticked((steps - 1) as nat).step().0
        }
    }

    /// What the CPU did in each of `steps` units of time.
    pub open spec fn outcomes(self, steps: nat) -> Seq<StepOutcome>
        decreases steps,
    {
        if steps == 0 {
            Seq::empty()
        } else {
            self.outcomes((steps - 1) as nat).push(self.ticked((steps - 1) as nat).step().1)
        }
    }
}

/// Sums over the terminated processes, from which the averages of
/// scheduling are drawn.
#[derive(Debug, Clone, Copy)]
pub struct SchedulingMetrics {
    /// The number of terminated processes.
    pub finished: usize,
    /// The sum of their waiting times.
    pub total_waiting: u128,
    /// The sum of their turnaround times.
    pub total_turnaround: u128,
    /// The sum of the response times of those that ran.
    pub total_response: u128,
    /// The number of those that ran.
    pub response_count: usize,
}

/// The sum of the waiting times of `finished`.
pub open spec fn total_waiting(finished: Seq<ProcessView>) -> int
    decreases finished.len(),
{
    if finished.len() == 0 {
        0
    } else {
        total_waiting(finished.drop_last()) + finished.last().waiting_time()
    }
}

/// The sum of the turnaround times of `finished`.
pub open spec fn total_turnaround(finished: Seq<ProcessView>) -> int
    decreases finished.len(),
{
    if finished.len() == 0 {
        0
    } else {
        total_turnaround(finished.drop_last()) + finished.last().turnaround_time()
    }
}

/// The sum of the response times of those of `finished` that ran.
pub open spec fn total_response(finished: Seq<ProcessView>) -> int
    decreases finished.len(),
{
    if finished.len() == 0 {
        0
    } else {
        total_response(finished.drop_last()) + match finished.last().response_time() {
            Some(response) => response,
            None => 0,
        }
    }
}

/// The number of those of `finished` that ran.
pub open spec fn responded(finished: Seq<ProcessView>) -> int
    decreases finished.len(),
{
    if finished.len() == 0 {
        0
    } else {
        responded(finished.drop_last()) + if finished.last().response_time() is Some {
            1int
        } else {
            0
        }
    }
}

impl KernelView {
    /// The sums over the terminated processes; none where no process has
    /// terminated.
    pub open spec fn metrics(self) -> Option<SchedulingMetrics> {
        if self.finished.len() == 0 {
            None
        } else {
            Some(
                SchedulingMetrics {
                    finished: self.finished.len() as usize,
                    total_waiting: total_waiting(self.finished) as u128,
                    total_turnaround: total_turnaround(self.finished) as u128,
                    total_response: total_response(self.finished) as u128,
                    response_count: responded(self.finished) as usize,
                },
            )
        }
    }
}

/// The state of the kernel.
pub struct KernelState {
    processes: HashMap<u32, Process>,
    next_pid: u32,
    /// The scheduler in use.
    pub scheduler: ActiveScheduler,
    /// The policy that the kernel was set up with.
    pub scheduler_type: SchedulerType,
    current_process: Option<u32>,
    memory_manager: FrameManager,
    heap_allocator: BuddyAllocator,
    producer_consumer: ProducerConsumerBuffer,
    current_time: u64,
    finished_processes: Vec<Process>,
}

impl View for KernelState {
    type V = KernelView;

    closed spec fn view(&self) -> KernelView {
        KernelView {
            processes: Map::new(
                |pid: u32| self.processes@.contains_key(pid),
                |pid: u32| self.processes@[pid]@,
            ),
            next_pid: self.next_pid,
            policy: self.scheduler.kind(),
            queue: self.scheduler.queue(),
            scheduler_type: self.scheduler_type,
            current_process: self.current_process,
            memory: self.memory_manager@,
            heap: self.heap_allocator@,
            buffer: self.producer_consumer@,
            current_time: self.current_time,
            finished: self.finished_processes@.map_values(|p: Process| p@),
        }
    }
}

/// The scheduler puts a process where its policy says.
proof fn lemma_place(scheduler: ActiveScheduler, p: ProcessView)
    ensures
        scheduler.place(p) == place_in(scheduler.kind(), scheduler.queue(), p),
{
}

impl KernelState {
    /// The invariant of the kernel: that of its scheduler, of its memory and
    /// of its heap.
    pub closed spec fn wf(&self) -> bool {
        &&& self.scheduler.wf()
        &&& self.memory_manager.wf()
        &&& self.heap_allocator.wf()
        &&& self@.filed()
    }

    /// A kernel with a scheduler of the given policy and `num_frames` frames
    /// of paged memory.
    pub fn new(scheduler_type: SchedulerType, num_frames: usize) -> (kernel: Self)
        requires
            num_frames >= 1,
        ensures
            kernel.wf(),
            kernel@ == KernelView::initial(scheduler_type, num_frames),
    {
        proof {
            reveal_with_fuel(is_pow2, 14);
            assert(is_pow2(HEAP_SIZE as int));
            assert(is_pow2(HEAP_MIN_BLOCK as int));
        }
        let kernel = Self {
            processes: HashMap::new(),
            next_pid: 1,
            scheduler: Self::create_scheduler(scheduler_type),
            scheduler_type,
            current_process: None,
            memory_manager: FrameManager::new(num_frames),
            heap_allocator: BuddyAllocator::new(HEAP_SIZE, HEAP_MIN_BLOCK),
            producer_consumer: ProducerConsumerBuffer::new(BUFFER_CAPACITY),
            current_time: 0,
            finished_processes: Vec::new(),
        };
        proof {
            let initial = KernelView::initial(scheduler_type, num_frames);
            assert(kernel@.processes =~= initial.processes);
            assert(kernel@.finished =~= initial.finished);
        }
        kernel
    }

    /// A scheduler of the given policy without processes.
    pub fn create_scheduler(scheduler_type: SchedulerType) -> (scheduler: ActiveScheduler)
        ensures
            scheduler.wf(),
            scheduler.kind() == scheduler_type,
            scheduler.queue() == Seq::<ProcessView>::empty(),
    {
        match scheduler_type {
            SchedulerType::RoundRobin(quantum) => ActiveScheduler::RoundRobin(
                RoundRobinScheduler::new(quantum),
            ),
            SchedulerType::SJF => ActiveScheduler::Sjf(SjfScheduler::new()),
            SchedulerType::FIFO => ActiveScheduler::Fifo(FifoScheduler::new()),
        }
    }

    /// Creates a process with the given burst and memory request, and
    /// returns its number.
    pub fn create_process(&mut self, cpu_burst: u64, memory_req: usize) -> (pid: u32)
        requires
            old(self).wf(),
            old(self)@.next_pid < u32::MAX,
        ensures
            final(self).wf(),
            pid == old(self)@.next_pid,
            final(self)@ == old(self)@.create_process(cpu_burst, memory_req),
    {
        let pid: u32 = self.next_pid;
        self.next_pid += 1;
        let mut process = Process::with_arrival(pid, cpu_burst, memory_req, self.current_time);
        process.state = ProcessState::Ready;
        self.memory_manager.create_page_table(pid);
        proof {
            lemma_place(self.scheduler, process@);
        }
        self.scheduler.push(process.clone());
        self.processes.insert(pid, process);
        proof {
            assert(self@.processes =~= old(self)@.create_process(cpu_burst, memory_req).processes);
        }
        pid
    }

    /// Terminates the live process `pid`.
    pub fn kill_process(&mut self, pid: u32) -> (result: Result<(), KernelError>)
        requires
            old(self).wf(),
        ensures
            final(self).wf(),
            (final(self)@, result) == old(self)@.kill_process(pid),
    {
        if let Some(mut proc) = self.processes.remove(&pid) {
            proc.mark_finished(self.current_time);
            self.finished_processes.push(proc);
            proof {
                assert(self@.processes =~= old(self)@.kill_process(pid).0.processes);
                assert(self@.finished =~= old(self)@.kill_process(pid).0.finished);
            }
            Ok(())
        } else {
            proof {
                assert(self@.processes =~= old(self)@.processes);
            }
            Err(KernelError::ProcessNotFound(pid))
        }
    }

    /// Blocks the process `pid` if it runs or is ready.
    pub fn suspend_process(&mut self, pid: u32) -> (result: Result<(), KernelError>)
        requires
            old(self).wf(),
        ensures
            final(self).wf(),
            (final(self)@, result) == old(self)@.suspend_process(pid),
    {
        if let Some(mut proc) = self.processes.remove(&pid) {
            let state: ProcessState = proc.state;
            let result = if state == ProcessState::Running || state == ProcessState::Ready {
                proc.state = ProcessState::Blocked;
                Ok(())
            } else {
                Err(KernelError::CannotSuspend(pid, state))
            };
            self.processes.insert(pid, proc);
            proof {
                assert(self@.processes =~= old(self)@.suspend_process(pid).0.processes);
            }
            result
        } else {
            proof {
                assert(self@.processes =~= old(self)@.processes);
            }
            Err(KernelError::ProcessNotFound(pid))
        }
    }

    /// Makes the blocked process `pid` ready and hands it to the scheduler.
    pub fn resume_process(&mut self, pid: u32) -> (result: Result<(), KernelError>)
        requires
            old(self).wf(),
        ensures
            final(self).wf(),
            (final(self)@, result) == old(self)@.resume_process(pid),
    {
        if let Some(mut proc) = self.processes.remove(&pid) {
            let state: ProcessState = proc.state;
            let result = if state == ProcessState::Blocked {
                proc.state = ProcessState::Ready;
                proof {
                    lemma_place(self.scheduler, proc@);
                }
                self.scheduler.push(proc.clone());
                Ok(())
            } else {
                Err(KernelError::NotBlocked(pid, state))
            };
            self.processes.insert(pid, proc);
            proof {
                assert(self@.processes =~= old(self)@.resume_process(pid).0.processes);
            }
            result
        } else {
            proof {
                assert(self@.processes =~= old(self)@.processes);
            }
            Err(KernelError::ProcessNotFound(pid))
        }
    }

    /// Advances the simulation by one unit of time and says what the CPU did.
    pub fn step(&mut self) -> (outcome: StepOutcome)
        requires
            old(self).wf(),
            old(self)@.current_time < u64::MAX,
        ensures
            final(self).wf(),
            (final(self)@, outcome) == old(self)@.step(),
    {
        self.current_time += 1;
        if let Some(mut process) = self.scheduler.next() {
            let ghost head = old(self)@.queue[0];
            process.mark_started(self.current_time);
            process.state = ProcessState::Running;
            // One unit of time, or none where nothing is left to run.
            let quantum_used: u64 = if process.remaining_burst >= 1 {
                1
            } else {
                0
            };
            process.remaining_burst -= quantum_used;
            let pid: u32 = process.pid;
            let remaining: u64 = process.remaining_burst;
            if process.remaining_burst == 0 {
                process.mark_finished(self.current_time);
                if self.processes.remove(&pid).is_some() {
                    self.finished_processes.push(process);
                }
                proof {
                    let expected = old(self)@.step().0;
                    assert(self@.processes =~= expected.processes);
                    assert(self@.finished =~= expected.finished);
                }
                StepOutcome::Ran { pid, used: quantum_used, remaining, finished: true }
            } else {
                process.state = ProcessState::Ready;
                self.processes.insert(pid, process.clone());
                proof {
                    lemma_place(self.scheduler, process@);
                }
                self.scheduler.push(process.clone());
                proof {
                    let expected = old(self)@.step().0;
                    assert(self@.processes =~= expected.processes);
                    assert(self@.finished =~= expected.finished);
                }
                StepOutcome::Ran { pid, used: quantum_used, remaining, finished: false }
            }
        } else {
            proof {
                assert(self@.processes =~= old(self)@.processes);
                assert(self@.finished =~= old(self)@.finished);
            }
            StepOutcome::Idle
        }
    }

    /// Advances the simulation by `steps` units of time. Returns what the
    /// CPU did in each.
    pub fn tick(&mut self, steps: u64) -> (outcomes: Vec<StepOutcome>)
        requires
            old(self).wf(),
            old(self)@.current_time + steps <= u64::MAX,
        ensures
            final(self).wf(),
            final(self)@ == old(self)@.ticked(steps as nat),
            outcomes@ == old(self)@.outcomes(steps as nat),
    {
        let mut outcomes: Vec<StepOutcome> = Vec::new();
        let mut step: u64 = 0;
        while step < steps
            invariant
                self.wf(),
                step <= steps,
                self@ == old(self)@.ticked(step as nat),
                outcomes@ == old(self)@.outcomes(step as nat),
                self@.current_time + (steps - step) <= u64::MAX,
            decreases steps - step,
        {
            let outcome = self.step();
            outcomes.push(outcome);
            step += 1;
        }
        outcomes
    }

    /// Advances the simulation by `steps` units of time.
    pub fn run(&mut self, steps: u64) -> (outcomes: Vec<StepOutcome>)
        requires
            old(self).wf(),
            old(self)@.current_time + steps <= u64::MAX,
        ensures
            final(self).wf(),
            final(self)@ == old(self)@.ticked(steps as nat),
            outcomes@ == old(self)@.outcomes(steps as nat),
    {
        self.tick(steps)
    }

    /// The live processes that are in `state`, or all live processes where
    /// `state` is `None`, in no particular order.
    fn select_processes(&self, state: Option<ProcessState>) -> (selected: Vec<Process>)
        requires
            self.wf(),
        ensures
            forall|i: int|
                0 <= i < selected@.len() ==> {
                    &&& self@.processes.contains_key((#[trigger] selected@[i])@.pid)
                    &&& self@.processes[selected@[i]@.pid] == selected@[i]@
                    &&& state is Some ==> selected@[i]@.state == state->0
                },
            forall|pid: u32|
                self@.processes.contains_key(pid) && (state is Some ==> self@.processes[pid].state
                    == state->0) ==> exists|i: int|
                    0 <= i < selected@.len() && (#[trigger] selected@[i])@.pid == pid,
            forall|i: int, j: int|
                0 <= i < j < selected@.len() ==> (#[trigger] selected@[i])@.pid != (
                #[trigger] selected@[j])@.pid,
    {
        let mut selected: Vec<Process> = Vec::new();
        let ghost all: Seq<u32> = spec_keys_iter(&self.processes).remaining().unref();
        let ghost mut origin: Seq<int> = Seq::empty();
        for pid in it: self.processes.keys()
            invariant
                self.wf(),
                all == it.seq().unref(),
                it.index() <= all.len(),
                all.to_set() == self.processes@.dom(),
                all.no_duplicates(),
                origin.len() == selected@.len(),
                forall|i: int| 0 <= i < selected@.len() ==> 0 <= #[trigger] origin[i] < all.len(),
                forall|i: int| 0 <= i < selected@.len() ==> #[trigger] origin[i] < it.index(),
                forall|i: int|
                    0 <= i < selected@.len() ==> (selected@[i])@.pid == all[#[trigger] origin[i]],
                forall|i: int|
                    0 <= i < selected@.len() ==> (selected@[i])@
                        == self@.processes[all[#[trigger] origin[i]]],
                forall|i: int|
                    0 <= i < selected@.len() ==> (state is Some ==> (#[trigger] selected@[i])@.state
                        == state->0),
                forall|i: int, j: int|
                    0 <= i < j < selected@.len() ==> #[trigger] origin[i] < #[trigger] origin[j],
                forall|k: int|
                    0 <= k < it.index() && (state is Some ==> self@.processes[all[k]].state
                        == state->0) ==> exists|i: int|
                        0 <= i < selected@.len() && #[trigger] origin[i] == k,
        {
            proof {
                assert(all.to_set().contains(all[it.index() as int]));
                assert(self@.processes.contains_key(*pid));
            }
            if let Some(process) = self.processes.get(pid) {
                let wanted: bool = match state {
                    Some(s) => process.state == s,
                    None => true,
                };
                if wanted {
                    let ghost before = origin;
                    let ghost chosen = selected@;
                    let copy = process.clone();
                    selected.push(copy);
                    proof {
                        origin = origin.push(it.index() as int);
                        assert(all[it.index() as int] == *pid);
                        assert(copy@ == self@.processes[*pid]);
                        assert(copy@.pid == *pid);
                        assert forall|i: int| 0 <= i < selected@.len() implies {
                            &&& 0 <= #[trigger] origin[i] < all.len()
                            &&& origin[i] < it.index() + 1
                            &&& (selected@[i])@.pid == all[origin[i]]
                            &&& (selected@[i])@ == self@.processes[all[origin[i]]]
                            &&& state is Some ==> (selected@[i])@.state == state->0
                        } by {
                            if i < chosen.len() {
                                assert(selected@[i] == chosen[i]);
                                assert(origin[i] == before[i]);
                            }
                        }
                        assert forall|i: int| 0 <= i < selected@.len() && state is Some implies (
                        #[trigger] selected@[i])@.state == state->0 by {
                            if i < chosen.len() {
                                assert(selected@[i] == chosen[i]);
                            }
                        }
                        assert forall|k: int|
                            0 <= k < it.index() + 1 && (state is Some
                                ==> self@.processes[all[k]].state == state->0) implies exists|
                            i: int,
                        |
                            0 <= i < selected@.len() && #[trigger] origin[i] == k by {
                            if k < it.index() {
                                let i = choose|i: int|
                                    0 <= i < before.len() && #[trigger] before[i] == k;
                                assert(origin[i] == k);
                            } else {
                                assert(origin[selected@.len() - 1] == k);
                            }
                        }
                    }
                }
            }
        }
        proof {
            assert forall|i: int| 0 <= i < selected@.len() implies {
                &&& self@.processes.contains_key((#[trigger] selected@[i])@.pid)
                &&& self@.processes[selected@[i]@.pid] == selected@[i]@
                &&& state is Some ==> selected@[i]@.state == state->0
            } by {
                assert(all.to_set().contains(all[origin[i]]));
            }
            assert forall|pid: u32|
                self@.processes.contains_key(pid) && (state is Some ==> self@.processes[pid].state
                    == state->0) implies exists|i: int|
                0 <= i < selected@.len() && (#[trigger] selected@[i])@.pid == pid by {
                assert(all.to_set().contains(pid));
                let k = choose|k: int| 0 <= k < all.len() && all[k] == pid;
                let i = choose|i: int| 0 <= i < selected@.len() && #[trigger] origin[i] == k;
                assert(selected@[i]@.pid == pid);
            }
            assert forall|i: int, j: int| 0 <= i < j < selected@.len() implies (
            #[trigger] selected@[i])@.pid != (#[trigger] selected@[j])@.pid by {
                assert(origin[i] < origin[j]);
            }
        }
        selected
    }

    /// The live processes that are ready, in no particular order.
    pub fn get_ready_processes(&self) -> (ready: Vec<Process>)
        requires
            self.wf(),
        ensures
            forall|i: int|
                0 <= i < ready@.len() ==> {
                    &&& self@.processes.contains_key((#[trigger] ready@[i])@.pid)
                    &&& self@.processes[ready@[i]@.pid] == ready@[i]@
                    &&& ready@[i]@.state == ProcessState::Ready
                },
            forall|pid: u32|
                self@.processes.contains_key(pid) && self@.processes[pid].state
                    == ProcessState::Ready ==> exists|i: int|
                    0 <= i < ready@.len() && (#[trigger] ready@[i])@.pid == pid,
            forall|i: int, j: int|
                0 <= i < j < ready@.len() ==> (#[trigger] ready@[i])@.pid != (
                #[trigger] ready@[j])@.pid,
    {
        self.select_processes(Some(ProcessState::Ready))
    }

    /// The live processes, in no particular order.
    pub fn processes(&self) -> (live: Vec<Process>)
        requires
            self.wf(),
        ensures
            forall|i: int|
                0 <= i < live@.len() ==> {
                    &&& self@.processes.contains_key((#[trigger] live@[i])@.pid)
                    &&& self@.processes[live@[i]@.pid] == live@[i]@
                },
            forall|pid: u32|
                self@.processes.contains_key(pid) ==> exists|i: int|
                    0 <= i < live@.len() && (#[trigger] live@[i])@.pid == pid,
            forall|i: int, j: int|
                0 <= i < j < live@.len() ==> (#[trigger] live@[i])@.pid != (
                #[trigger] live@[j])@.pid,
    {
        self.select_processes(None)
    }

    /// The sums over the terminated processes; none where no process has
    /// terminated.
    pub fn compute_metrics(&self) -> (metrics: Option<SchedulingMetrics>)
        ensures
            metrics == self@.metrics(),
    {
        if self.finished_processes.len() == 0 {
            return None;
        }
        let ghost finished = self@.finished;
        let mut total_waiting_time: u128 = 0;
        let mut total_turnaround_time: u128 = 0;
        let mut total_response_time: u128 = 0;
        let mut response_count: usize = 0;
        let mut i: usize = 0;
        while i < self.finished_processes.len()
            invariant
                i <= self.finished_processes.len(),
                finished == self@.finished,
                finished.len() == self.finished_processes.len(),
                total_waiting_time == total_waiting(finished.take(i as int)),
                total_turnaround_time == total_turnaround(finished.take(i as int)),
                total_response_time == total_response(finished.take(i as int)),
                response_count == responded(finished.take(i as int)),
                total_waiting_time <= i * u64::MAX,
                total_turnaround_time <= i * u64::MAX,
                total_response_time <= i * u64::MAX,
                response_count <= i,
            decreases self.finished_processes.len() - i,
        {
            let proc = &self.finished_processes[i];
            proof {
                assert(finished.take(i + 1).drop_last() =~= finished.take(i as int));
                assert(finished.take(i + 1).last() == proc@);
                assert((i + 1) * u64::MAX == i * u64::MAX + u64::MAX) by (nonlinear_arith);
                assert(i * u64::MAX <= usize::MAX * u64::MAX) by (nonlinear_arith)
                    requires
                        i <= usize::MAX,
                ;
                assert(usize::MAX * u64::MAX <= 0xFFFF_FFFF_FFFF_FFFF * 0xFFFF_FFFF_FFFF_FFFF)
                    by (nonlinear_arith)
                    requires
                        usize::MAX <= 0xFFFF_FFFF_FFFF_FFFF,
                        u64::MAX == 0xFFFF_FFFF_FFFF_FFFF,
                ;
            }
            let waiting: u64 = proc.waiting_time(self.current_time);
            let turnaround: u64 = proc.turnaround_time();
            let response: Option<u64> = proc.response_time();
            total_waiting_time += waiting as u128;
            total_turnaround_time += turnaround as u128;
            if let Some(resp) = response {
                total_response_time += resp as u128;
                response_count += 1;
            }
            i += 1;
        }
        proof {
            assert(finished.take(i as int) =~= finished);
        }
        Some(
            SchedulingMetrics {
                finished: self.finished_processes.len(),
                total_waiting: total_waiting_time,
                total_turnaround: total_turnaround_time,
                total_response: total_response_time,
                response_count,
            },
        )
    }

    /// Process `producer_pid` tries to add `item` to the buffer.
    pub fn produce(&mut self, item: String, producer_pid: u32) -> (result: Result<(), KernelError>)
        requires
            old(self).wf(),
            old(self)@.buffer.can_produce(),
        ensures
            final(self).wf(),
            final(self)@ == (KernelView {
                buffer: old(self)@.buffer.produce(item@, producer_pid).0,
                ..old(self)@
            }),
            result == (match old(self)@.buffer.produce(item@, producer_pid).1 {
                Ok(_) => Ok::<(), KernelError>(()),
                Err(e) => Err::<(), KernelError>(KernelError::Buffer(e)),
            }),
    {
        match self.producer_consumer.produce(item, producer_pid) {
            Ok(()) => Ok(()),
            Err(e) => Err(KernelError::Buffer(e)),
        }
    }

    /// Process `consumer_pid` tries to take the oldest item of the buffer.
    pub fn consume(&mut self, consumer_pid: u32) -> (result: Result<String, KernelError>)
        requires
            old(self).wf(),
            old(self)@.buffer.can_consume(),
        ensures
            final(self).wf(),
            final(self)@ == (KernelView {
                buffer: old(self)@.buffer.consume(consumer_pid).0,
                ..old(self)@
            }),
            match result {
                Ok(item) => old(self)@.buffer.consume(consumer_pid).1 == Ok::<
                    Seq<char>,
                    BufferError,
                >(item@),
                Err(error) => exists|e: BufferError|
                    error == KernelError::Buffer(e) && old(self)@.buffer.consume(consumer_pid).1
                        == Err::<Seq<char>, BufferError>(e),
            },
    {
        match self.producer_consumer.consume(consumer_pid) {
            Ok(item) => Ok(item),
            Err(e) => Err(KernelError::Buffer(e)),
        }
    }

    /// The producer-consumer buffer, to show its state.
    pub fn buffer_status(&self) -> (buffer: &ProducerConsumerBuffer)
        ensures
            buffer@ == self@.buffer,
    {
        &self.producer_consumer
    }

    /// The frames of paged memory, to show them.
    pub fn display_memory(&self) -> (frames: &Vec<Frame>)
        ensures
            frames@ == self@.memory.frames,
    {
        self.memory_manager.frames()
    }

    /// The manager of paged memory.
    pub fn memory_manager(&self) -> (manager: &FrameManager)
        requires
            self.wf(),
        ensures
            manager.wf(),
            manager@ == self@.memory,
    {
        &self.memory_manager
    }

    /// The heap allocator.
    pub fn heap_allocator(&self) -> (allocator: &BuddyAllocator)
        requires
            self.wf(),
        ensures
            allocator.wf(),
            allocator@ == self@.heap,
    {
        &self.heap_allocator
    }

    /// The time: the number of units that the simulation has advanced.
    pub fn current_time(&self) -> (time: u64)
        ensures
            time == self@.current_time,
    {
        self.current_time
    }

    /// The number that the next process gets.
    pub fn next_pid(&self) -> (pid: u32)
        ensures
            pid == self@.next_pid,
    {
        self.next_pid
    }

    /// The terminated processes, in the order of termination.
    pub fn finished_processes(&self) -> (finished: &Vec<Process>)
        ensures
            finished@.map_values(|p: Process| p@) == self@.finished,
    {
        &self.finished_processes
    }

    /// Resolves a reference of `pid` to page `page` under `policy`.
    pub fn access_memory(&mut self, policy: ReplacementPolicy, pid: u32, page: usize) -> (result:
        Result<usize, KernelError>)
        requires
            old(self).wf(),
            old(self)@.memory.current_time < u64::MAX,
            old(self)@.memory.can_access(policy, pid, page),
        ensures
            final(self).wf(),
            final(self)@ == (KernelView {
                memory: old(self)@.memory.access_page(policy, pid, page).0,
                ..old(self)@
            }),
            result == (match old(self)@.memory.access_page(policy, pid, page).1 {
                Ok(frame) => Ok::<usize, KernelError>(frame),
                Err(e) => Err::<usize, KernelError>(KernelError::Memory(e)),
            }),
    {
        match self.memory_manager.access_page(policy, pid, page) {
            Ok(frame) => Ok(frame),
            Err(e) => Err(KernelError::Memory(e)),
        }
    }

    /// Resolves a reference of `pid` to page `page` under FIFO replacement.
    pub fn access_memory_fifo(&mut self, pid: u32, page: usize) -> (result: Result<
        usize,
        KernelError,
    >)
        requires
            old(self).wf(),
            old(self)@.memory.current_time < u64::MAX,
            old(self)@.memory.can_access(ReplacementPolicy::Fifo, pid, page),
        ensures
            final(self).wf(),
            final(self)@ == (KernelView {
                memory: old(self)@.memory.access_page(ReplacementPolicy::Fifo, pid, page).0,
                ..old(self)@
            }),
            result == (match old(self)@.memory.access_page(ReplacementPolicy::Fifo, pid, page).1 {
                Ok(frame) => Ok::<usize, KernelError>(frame),
                Err(e) => Err::<usize, KernelError>(KernelError::Memory(e)),
            }),
    {
        self.access_memory(ReplacementPolicy::Fifo, pid, page)
    }

    /// Resolves a reference of `pid` to page `page` under
    /// least-recently-used replacement.
    pub fn access_memory_lru(&mut self, pid: u32, page: usize) -> (result: Result<
        usize,
        KernelError,
    >)
        requires
            old(self).wf(),
            old(self)@.memory.current_time < u64::MAX,
        ensures
            final(self).wf(),
            final(self)@ == (KernelView {
                memory: old(self)@.memory.access_page(ReplacementPolicy::Lru, pid, page).0,
                ..old(self)@
            }),
            result == (match old(self)@.memory.access_page(ReplacementPolicy::Lru, pid, page).1 {
                Ok(frame) => Ok::<usize, KernelError>(frame),
                Err(e) => Err::<usize, KernelError>(KernelError::Memory(e)),
            }),
    {
        self.access_memory(ReplacementPolicy::Lru, pid, page)
    }

    /// Resolves a reference of `pid` to page `page` under working-set
    /// replacement with a window of `window` time units.
    pub fn access_memory_ws(&mut self, pid: u32, page: usize, window: usize) -> (result: Result<
        usize,
        KernelError,
    >)
        requires
            old(self).wf(),
            old(self)@.memory.current_time < u64::MAX,
        ensures
            final(self).wf(),
            final(self)@ == (KernelView {
                memory: old(self)@.memory.access_page(
                    ReplacementPolicy::WorkingSet(window as u64),
                    pid,
                    page,
                ).0,
                ..old(self)@
            }),
            result == (match old(self)@.memory.access_page(
                ReplacementPolicy::WorkingSet(window as u64),
                pid,
                page,
            ).1 {
                Ok(frame) => Ok::<usize, KernelError>(frame),
                Err(e) => Err::<usize, KernelError>(KernelError::Memory(e)),
            }),
    {
        self.access_memory(ReplacementPolicy::WorkingSet(window as u64), pid, page)
    }

    /// Allocates `size` bytes of heap for `pid`.
    pub fn heap_alloc(&mut self, pid: u32, size: usize) -> (result: Result<usize, KernelError>)
        requires
            old(self).wf(),
            old(self)@.heap.allocate(pid, size).1 is Ok ==> old(self)@.heap.total_allocations
                < u64::MAX && old(self)@.heap.internal_fragmentation + old(
                self,
            )@.heap.request_size(size) - size <= usize::MAX,
        ensures
            final(self).wf(),
            final(self)@ == (KernelView {
                heap: old(self)@.heap.allocate(pid, size).0,
                ..old(self)@
            }),
            result == (match old(self)@.heap.allocate(pid, size).1 {
                Ok(address) => Ok::<usize, KernelError>(address),
                Err(e) => Err::<usize, KernelError>(KernelError::Heap(e)),
            }),
    {
        match self.heap_allocator.allocate(pid, size) {
            Ok(address) => Ok(address),
            Err(e) => Err(KernelError::Heap(e)),
        }
    }

    /// Releases the heap block at `address`.
    pub fn heap_free(&mut self, address: usize) -> (result: Result<(), KernelError>)
        requires
            old(self).wf(),
            old(self)@.heap.free(address).1 is Ok ==> old(self)@.heap.total_deallocations
                < u64::MAX,
        ensures
            final(self).wf(),
            final(self)@ == (KernelView { heap: old(self)@.heap.free(address).0, ..old(self)@ }),
            result == (match old(self)@.heap.free(address).1 {
                Ok(_) => Ok::<(), KernelError>(()),
                Err(e) => Err::<(), KernelError>(KernelError::Heap(e)),
            }),
    {
        match self.heap_allocator.free(address) {
            Ok(()) => Ok(()),
            Err(e) => Err(KernelError::Heap(e)),
        }
    }
}

} // verus!
