use vstd::prelude::*;

verus! {

/// Life-cycle state of a simulated process.
#[derive(Debug, Clone, Copy, PartialEq, Eq, Structural)]
pub enum ProcessState {
    Ready,
    Running,
    Blocked,
    Terminated,
}

/// A process of the simulated system.
#[derive(Debug)]
pub struct Process {
    pub pid: u32,
    pub state: ProcessState,
    /// Total CPU burst.
    pub cpu_burst: u64,
    /// CPU burst still to run.
    pub remaining_burst: u64,
    /// Memory the process asks for.
    pub memory_req: usize,
    pub arrival_time: u64,
    /// Time of the first run, once it has run.
    pub start_time: Option<u64>,
    /// Time of termination, once it has terminated.
    pub finish_time: Option<u64>,
    /// Pending I/O operations.
    pub io_operations: Vec<u64>,
}

/// The mathematical value of a [`Process`].
pub struct ProcessView {
    pub pid: u32,
    pub state: ProcessState,
    pub cpu_burst: u64,
    pub remaining_burst: u64,
    pub memory_req: usize,
    pub arrival_time: u64,
    pub start_time: Option<u64>,
    pub finish_time: Option<u64>,
    pub io_operations: Seq<u64>,
}

impl View for Process {
    type V = ProcessView;

    open spec fn view(&self) -> ProcessView {
        ProcessView {
            pid: self.pid,
            state: self.state,
            cpu_burst: self.cpu_burst,
            remaining_burst: self.remaining_burst,
            memory_req: self.memory_req,
            arrival_time: self.arrival_time,
            start_time: self.start_time,
            finish_time: self.finish_time,
            io_operations: self.io_operations@,
        }
    }
}

impl Clone for Process {
    fn clone(&self) -> (copy: Self)
        ensures
            copy@ == self@,
    {
        Process {
            pid: self.pid,
            state: self.state,
            cpu_burst: self.cpu_burst,
            remaining_burst: self.remaining_burst,
            memory_req: self.memory_req,
            arrival_time: self.arrival_time,
            start_time: self.start_time,
            finish_time: self.finish_time,
            io_operations: self.io_operations.clone(),
        }
    }
}

/// `a - b`, or zero where `b` exceeds `a`.
pub open spec fn monus(a: int, b: int) -> int {
    if a >= b {
        a - b
    } else {
        0
    }
}

impl ProcessView {
    /// A process that has just been admitted at `arrival_time`.
    pub open spec fn fresh(pid: u32, cpu_burst: u64, memory_req: usize, arrival_time: u64) -> Self {
        ProcessView {
            pid,
            state: ProcessState::Ready,
            cpu_burst,
            remaining_burst: cpu_burst,
            memory_req,
            arrival_time,
            start_time: None,
            finish_time: None,
            io_operations: Seq::empty(),
        }
    }

    /// Time from arrival to termination; zero while the process has not terminated.
    pub open spec fn turnaround_time(self) -> int {
        match self.finish_time {
            Some(finish) => monus(finish as int, self.arrival_time as int),
            None => 0,
        }
    }

    /// Turnaround time not spent on the CPU; zero while the process has not terminated.
    pub open spec fn waiting_time(self) -> int {
        match self.finish_time {
            Some(_) => monus(self.turnaround_time(), self.cpu_burst as int),
            None => 0,
        }
    }

    /// Time from arrival to the first run, once the process has run.
    pub open spec fn response_time(self) -> Option<int> {
        match self.start_time {
            Some(start) => Some(monus(start as int, self.arrival_time as int)),
            None => None,
        }
    }

    /// Whether the process has no work left or has been terminated.
    pub open spec fn is_finished(self) -> bool {
        self.remaining_burst == 0 || self.state == ProcessState::Terminated
    }
}

impl Process {
    /// A ready process that arrived at time zero.
    pub fn new(pid: u32, cpu_burst: u64, memory_req: usize) -> (p: Self)
        ensures
            p@ == ProcessView::fresh(pid, cpu_burst, memory_req, 0),
    {
        Self {
            pid,
            state: ProcessState::Ready,
            cpu_burst,
            remaining_burst: cpu_burst,
            memory_req,
            arrival_time: 0,
            start_time: None,
            finish_time: None,
            io_operations: Vec::new(),
        }
    }

    /// A ready process that arrived at `arrival_time`.
    pub fn with_arrival(pid: u32, cpu_burst: u64, memory_req: usize, arrival_time: u64) -> (p: Self)
        ensures
            p@ == ProcessView::fresh(pid, cpu_burst, memory_req, arrival_time),
    {
        Self {
            pid,
            state: ProcessState::Ready,
            cpu_burst,
            remaining_burst: cpu_burst,
            memory_req,
            arrival_time,
            start_time: None,
            finish_time: None,
            io_operations: Vec::new(),
        }
    }

    /// Waiting time of a terminated process. `_current_time` plays no part.
    pub fn waiting_time(&self, _current_time: u64) -> (w: u64)
        ensures
            w == self@.waiting_time(),
    {
        if let Some(finish) = self.finish_time {
            finish.saturating_sub(self.arrival_time).saturating_sub(self.cpu_burst)
        } else {
            0
        }
    }

    /// Turnaround time of a terminated process.
    pub fn turnaround_time(&self) -> (t: u64)
        ensures
            t == self@.turnaround_time(),
    {
        if let Some(finish) = self.finish_time {
            finish.saturating_sub(self.arrival_time)
        } else {
            0
        }
    }

    /// Response time of a process that has run.
    pub fn response_time(&self) -> (r: Option<u64>)
        ensures
            r is Some <==> self@.response_time() is Some,
            r is Some ==> r->0 == self@.response_time()->0,
    {
        match self.start_time {
            Some(start) => Some(start.saturating_sub(self.arrival_time)),
            None => None,
        }
    }

    /// Records the first run; later calls change nothing.
    pub fn mark_started(&mut self, time: u64)
        ensures
            final(self)@ == (ProcessView {
                start_time: if old(self).start_time is None {
                    Some(time)
                } else {
                    old(self).start_time
                },
                ..old(self)@
            }),
    {
        if self.start_time.is_none() {
            self.start_time = Some(time);
        }
    }

    /// Records termination at `time`.
    pub fn mark_finished(&mut self, time: u64)
        ensures
            final(self)@ == (ProcessView {
                finish_time: Some(time),
                state: ProcessState::Terminated,
                ..old(self)@
            }),
    {
        self.finish_time = Some(time);
        self.state = ProcessState::Terminated;
    }

    /// Whether the process has no work left or has been terminated.
    pub fn is_finished(&self) -> (done: bool)
        ensures
            done == self@.is_finished(),
    {
        self.remaining_burst == 0 || self.state == ProcessState::Terminated
    }
}

} // verus!
