use kernel_sim::kernel::{
    ActiveScheduler, KernelError, KernelState, SchedulerType, StepOutcome,
};
use kernel_sim::modules::ipc::sync::BufferError;
use kernel_sim::modules::mem::buddy::BuddyError;
use kernel_sim::modules::mem::paging::PagingError;
use kernel_sim::modules::mem::MemoryManager;
use kernel_sim::process::ProcessState;
use kernel_sim::scheduler::Scheduler;

fn ran(pid: u32, used: u64, remaining: u64, finished: bool) -> StepOutcome {
    StepOutcome::Ran { pid, used, remaining, finished }
}

fn sorted_pids(kernel: &KernelState) -> Vec<u32> {
    let mut pids: Vec<u32> = kernel.processes().iter().map(|p| p.pid).collect();
    pids.sort();
    pids
}

#[test]
fn fresh_kernel() {
    let kernel = KernelState::new(SchedulerType::RoundRobin(4), 8);
    assert_eq!(kernel.current_time(), 0);
    assert_eq!(kernel.next_pid(), 1);
    assert_eq!(kernel.scheduler_type, SchedulerType::RoundRobin(4));
    assert_eq!(kernel.scheduler.name(), "Round Robin");
    assert_eq!(kernel.scheduler.len(), 0);
    assert!(kernel.processes().is_empty());
    assert!(kernel.finished_processes().is_empty());
    assert_eq!(kernel.display_memory().len(), 8);
    assert_eq!(kernel.buffer_status().capacity(), 5);
    let heap = kernel.heap_allocator().stats();
    assert_eq!((heap.total_size, heap.free_memory, heap.free_blocks), (4096, 4096, 1));
    assert_eq!(kernel.heap_allocator().min_block_size(), 64);
    assert!(kernel.compute_metrics().is_none());
}

#[test]
fn create_scheduler_follows_the_type() {
    assert!(matches!(
        KernelState::create_scheduler(SchedulerType::FIFO),
        ActiveScheduler::Fifo(_)
    ));
    assert!(matches!(KernelState::create_scheduler(SchedulerType::SJF), ActiveScheduler::Sjf(_)));
    match KernelState::create_scheduler(SchedulerType::RoundRobin(7)) {
        ActiveScheduler::RoundRobin(rr) => assert_eq!(rr.quantum(), 7),
        _ => panic!("a round robin scheduler was asked for"),
    }
    assert_eq!(KernelState::create_scheduler(SchedulerType::SJF).name(), "SJF");
    assert_eq!(KernelState::create_scheduler(SchedulerType::FIFO).name(), "FIFO");
}

#[test]
fn processes_get_rising_numbers_and_are_ready() {
    let mut kernel = KernelState::new(SchedulerType::FIFO, 4);
    assert_eq!(kernel.create_process(5, 100), 1);
    assert_eq!(kernel.create_process(3, 200), 2);
    assert_eq!(kernel.next_pid(), 3);
    assert_eq!(sorted_pids(&kernel), vec![1, 2]);
    assert_eq!(kernel.scheduler.len(), 2);
    let mut ready = kernel.get_ready_processes();
    ready.sort_by_key(|p| p.pid);
    assert_eq!(ready.len(), 2);
    assert_eq!((ready[0].pid, ready[0].cpu_burst, ready[0].memory_req), (1, 5, 100));
    assert_eq!((ready[1].pid, ready[1].remaining_burst, ready[1].arrival_time), (2, 3, 0));
    assert_eq!(ready[0].state, ProcessState::Ready);
}

#[test]
fn fifo_kernel_runs_processes_in_turn() {
    let mut kernel = KernelState::new(SchedulerType::FIFO, 4);
    kernel.create_process(2, 0);
    kernel.create_process(1, 0);
    let outcomes = kernel.tick(4);
    // Each process runs one unit and goes to the back of the queue.
    assert_eq!(
        outcomes,
        vec![ran(1, 1, 1, false), ran(2, 1, 0, true), ran(1, 1, 0, true), StepOutcome::Idle]
    );
    assert_eq!(kernel.current_time(), 4);
    assert!(kernel.processes().is_empty());
    let finished = kernel.finished_processes();
    assert_eq!(finished.len(), 2);
    assert_eq!((finished[0].pid, finished[0].start_time, finished[0].finish_time), (2, Some(2), Some(2)));
    assert_eq!((finished[1].pid, finished[1].start_time, finished[1].finish_time), (1, Some(1), Some(3)));
    assert_eq!(finished[1].state, ProcessState::Terminated);
    assert_eq!(finished[1].remaining_burst, 0);
}

#[test]
fn sjf_kernel_runs_the_shortest_first() {
    let mut kernel = KernelState::new(SchedulerType::SJF, 4);
    kernel.create_process(3, 0);
    kernel.create_process(1, 0);
    kernel.create_process(2, 0);
    let outcomes = kernel.run(6);
    assert_eq!(
        outcomes,
        vec![
            ran(2, 1, 0, true),
            ran(3, 1, 1, false),
            ran(3, 1, 0, true),
            ran(1, 1, 2, false),
            ran(1, 1, 1, false),
            ran(1, 1, 0, true),
        ]
    );
}

#[test]
fn a_process_created_later_arrives_later() {
    let mut kernel = KernelState::new(SchedulerType::FIFO, 4);
    kernel.tick(3);
    kernel.create_process(1, 0);
    assert_eq!(kernel.step(), ran(1, 1, 0, true));
    let done = &kernel.finished_processes()[0];
    assert_eq!((done.arrival_time, done.start_time, done.finish_time), (3, Some(4), Some(4)));
}

#[test]
fn a_process_without_burst_ends_at_once() {
    let mut kernel = KernelState::new(SchedulerType::FIFO, 4);
    kernel.create_process(0, 0);
    assert_eq!(kernel.step(), ran(1, 0, 0, true));
    assert_eq!(kernel.finished_processes().len(), 1);
}

#[test]
fn kill_moves_a_process_to_the_finished_ones() {
    let mut kernel = KernelState::new(SchedulerType::FIFO, 4);
    kernel.create_process(5, 0);
    kernel.tick(2);
    assert_eq!(kernel.kill_process(1), Ok(()));
    assert_eq!(kernel.kill_process(1), Err(KernelError::ProcessNotFound(1)));
    assert_eq!(kernel.kill_process(9), Err(KernelError::ProcessNotFound(9)));
    assert!(kernel.processes().is_empty());
    let done = &kernel.finished_processes()[0];
    assert_eq!((done.pid, done.finish_time, done.state), (1, Some(2), ProcessState::Terminated));
    assert_eq!(done.remaining_burst, 3);
}

#[test]
fn a_killed_process_that_is_still_queued_comes_back() {
    let mut kernel = KernelState::new(SchedulerType::FIFO, 4);
    kernel.create_process(5, 0);
    kernel.kill_process(1).unwrap();
    // The scheduler still holds the process: it runs and is live again.
    assert_eq!(kernel.step(), ran(1, 1, 4, false));
    assert_eq!(sorted_pids(&kernel), vec![1]);
    assert_eq!(kernel.finished_processes().len(), 1);
}

#[test]
fn suspend_and_resume() {
    let mut kernel = KernelState::new(SchedulerType::FIFO, 4);
    kernel.create_process(5, 0);
    assert_eq!(kernel.resume_process(1), Err(KernelError::NotBlocked(1, ProcessState::Ready)));
    assert_eq!(kernel.suspend_process(1), Ok(()));
    assert_eq!(kernel.processes()[0].state, ProcessState::Blocked);
    assert!(kernel.get_ready_processes().is_empty());
    assert_eq!(
        kernel.suspend_process(1),
        Err(KernelError::CannotSuspend(1, ProcessState::Blocked))
    );
    assert_eq!(kernel.suspend_process(2), Err(KernelError::ProcessNotFound(2)));
    assert_eq!(kernel.resume_process(2), Err(KernelError::ProcessNotFound(2)));
    assert_eq!(kernel.scheduler.len(), 1);
    assert_eq!(kernel.resume_process(1), Ok(()));
    assert_eq!(kernel.processes()[0].state, ProcessState::Ready);
    // The process waits for the CPU once more.
    assert_eq!(kernel.scheduler.len(), 2);
}

#[test]
fn metrics_sum_over_the_finished_processes() {
    let mut kernel = KernelState::new(SchedulerType::FIFO, 4);
    kernel.create_process(2, 0);
    kernel.create_process(1, 0);
    kernel.tick(3);
    let metrics = kernel.compute_metrics().unwrap();
    assert_eq!(metrics.finished, 2);
    // Process 2: turnaround 2, waiting 1, response 2. Process 1: 3, 1, 1.
    assert_eq!(metrics.total_turnaround, 5);
    assert_eq!(metrics.total_waiting, 2);
    assert_eq!(metrics.total_response, 3);
    assert_eq!(metrics.response_count, 2);
}

#[test]
fn metrics_leave_out_the_response_of_what_never_ran() {
    let mut kernel = KernelState::new(SchedulerType::FIFO, 4);
    kernel.create_process(9, 0);
    kernel.tick(4);
    kernel.create_process(3, 0);
    kernel.kill_process(2).unwrap();
    kernel.kill_process(1).unwrap();
    let metrics = kernel.compute_metrics().unwrap();
    assert_eq!(metrics.finished, 2);
    assert_eq!(metrics.response_count, 1);
    assert_eq!(metrics.total_response, 1);
    // Process 2 arrived at 4 and ended at 4; process 1 took 4 of its 9 units.
    assert_eq!(metrics.total_turnaround, 4);
    assert_eq!(metrics.total_waiting, 0);
}

#[test]
fn kernel_buffer() {
    let mut kernel = KernelState::new(SchedulerType::FIFO, 4);
    assert_eq!(kernel.consume(200), Err(KernelError::Buffer(BufferError::ConsumerBlocked)));
    assert_eq!(kernel.produce("a".to_string(), 100), Ok(()));
    assert_eq!(kernel.buffer_status().len(), 1);
    assert_eq!(kernel.buffer_status().total_produced(), 1);
    for i in 0..4 {
        assert_eq!(kernel.produce(format!("{}", i), 100), Ok(()));
    }
    assert_eq!(
        kernel.produce("late".to_string(), 100),
        Err(KernelError::Buffer(BufferError::ProducerBlocked))
    );
}

#[test]
fn kernel_memory() {
    let mut kernel = KernelState::new(SchedulerType::FIFO, 2);
    let pid = kernel.create_process(1, 0);
    assert_eq!(kernel.access_memory_fifo(pid, 1), Ok(0));
    assert_eq!(kernel.access_memory_fifo(pid, 2), Ok(1));
    assert_eq!(kernel.access_memory_fifo(pid, 1), Ok(0));
    assert_eq!(kernel.access_memory_fifo(pid, 3), Ok(0));
    assert_eq!(kernel.access_memory_lru(pid, 4), Ok(1));
    assert_eq!(
        kernel.access_memory_ws(pid, 5, 10),
        Err(KernelError::Memory(PagingError::Thrashing))
    );
    let stats = kernel.memory_manager().stats();
    assert_eq!((stats.page_faults, stats.page_hits, stats.total_accesses), (4, 1, 5));
    let frames = kernel.display_memory();
    assert_eq!((frames[0].pid, frames[0].page_num), (Some(pid), Some(3)));
    assert_eq!((frames[1].pid, frames[1].page_num), (Some(pid), Some(4)));
}

#[test]
fn kernel_heap() {
    let mut kernel = KernelState::new(SchedulerType::FIFO, 2);
    assert_eq!(kernel.heap_alloc(1, 100), Ok(0));
    assert_eq!(kernel.heap_alloc(1, 4096), Err(KernelError::Heap(BuddyError::OutOfMemory)));
    assert_eq!(kernel.heap_alloc(1, 0), Err(KernelError::Heap(BuddyError::InvalidSize)));
    assert_eq!(kernel.heap_alloc(1, 5000), Err(KernelError::Heap(BuddyError::InvalidSize)));
    assert_eq!(kernel.heap_free(64), Err(KernelError::Heap(BuddyError::NotAllocated)));
    assert_eq!(kernel.heap_free(0), Ok(()));
    let stats = kernel.heap_allocator().stats();
    assert_eq!((stats.free_memory, stats.free_blocks, stats.largest_free_block), (4096, 1, 4096));
    assert_eq!((stats.total_allocations, stats.total_deallocations), (1, 1));
    assert_eq!(kernel.heap_allocator().blocks().len(), 1);
}

#[test]
fn memory_manager_hands_out_address_zero() {
    let mut manager = MemoryManager::new();
    assert_eq!(manager.allocate(1, 100), Ok(0));
    assert_eq!(manager.allocate(2, 1), Ok(0));
}
