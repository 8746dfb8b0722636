use kernel_sim::process::{Process, ProcessState};
use kernel_sim::scheduler::{FifoScheduler, RoundRobinScheduler, Scheduler, SjfScheduler};

#[test]
fn fifo_order() {
    let mut s = FifoScheduler::new();
    s.push(Process::new(1, 5, 10));
    s.push(Process::new(2, 3, 8));
    s.push(Process::new(3, 2, 4));

    assert_eq!(s.next().unwrap().pid, 1);
    assert_eq!(s.next().unwrap().pid, 2);
    assert_eq!(s.next().unwrap().pid, 3);
}

#[test]
fn round_robin_fairness() {
    let mut rr = RoundRobinScheduler::new(3);

    let mut p1 = Process::new(1, 7, 10);
    let mut p2 = Process::new(2, 4, 8);
    let p3 = Process::new(3, 2, 4);

    rr.push(p1.clone());
    rr.push(p2.clone());
    rr.push(p3.clone());

    // First round.
    let proc1 = rr.next().unwrap();
    assert_eq!(proc1.pid, 1);

    // One quantum runs.
    p1.remaining_burst = p1.remaining_burst.saturating_sub(3);
    if p1.remaining_burst > 0 {
        rr.push(p1.clone());
    }

    let proc2 = rr.next().unwrap();
    assert_eq!(proc2.pid, 2);

    p2.remaining_burst = p2.remaining_burst.saturating_sub(3);
    if p2.remaining_burst > 0 {
        rr.push(p2.clone());
    }

    let proc3 = rr.next().unwrap();
    assert_eq!(proc3.pid, 3);
    // Process 3 is done (2 < 3).

    // Second round: processes 1 and 2 are left.
    let proc1_again = rr.next().unwrap();
    assert_eq!(proc1_again.pid, 1);
}

#[test]
fn sjf_shortest_first() {
    let mut sjf = SjfScheduler::new();

    sjf.push(Process::new(1, 7, 10));
    sjf.push(Process::new(2, 3, 8));
    sjf.push(Process::new(3, 5, 4));

    // In the order of their bursts: 2 (3), 3 (5), 1 (7).
    assert_eq!(sjf.next().unwrap().pid, 2);
    assert_eq!(sjf.next().unwrap().pid, 3);
    assert_eq!(sjf.next().unwrap().pid, 1);
}

#[test]
fn sjf_keeps_arrival_order_among_equal_bursts() {
    let mut sjf = SjfScheduler::new();
    sjf.push(Process::new(1, 4, 0));
    sjf.push(Process::new(2, 2, 0));
    sjf.push(Process::new(3, 4, 0));
    sjf.push(Process::new(4, 2, 0));
    sjf.push(Process::new(5, 9, 0));
    sjf.push(Process::new(6, 0, 0));
    assert_eq!(sjf.len(), 6);
    let mut order = Vec::new();
    while let Some(p) = sjf.next() {
        order.push(p.pid);
    }
    assert_eq!(order, vec![6, 2, 4, 1, 3, 5]);
    assert!(sjf.is_empty());
    assert!(sjf.next().is_none());
}

#[test]
fn schedulers_report_length_and_name() {
    let mut fifo = FifoScheduler::new();
    assert!(fifo.is_empty());
    assert_eq!(fifo.len(), 0);
    assert!(fifo.next().is_none());
    fifo.push(Process::new(1, 1, 1));
    assert!(!fifo.is_empty());
    assert_eq!(fifo.len(), 1);
    assert_eq!(fifo.name(), "FIFO");

    let mut rr = RoundRobinScheduler::new(4);
    assert_eq!(rr.quantum(), 4);
    assert_eq!(rr.name(), "Round Robin");
    assert!(rr.is_empty());
    rr.push(Process::new(1, 1, 1));
    rr.push(Process::new(2, 1, 1));
    assert_eq!(rr.len(), 2);
    assert_eq!(rr.quantum(), 4);

    let sjf = SjfScheduler::new();
    assert_eq!(sjf.name(), "SJF");
    assert_eq!(sjf.len(), 0);
}

#[test]
fn process_starts_ready_with_its_full_burst() {
    let p = Process::new(3, 9, 128);
    assert_eq!(p.pid, 3);
    assert_eq!(p.state, ProcessState::Ready);
    assert_eq!(p.cpu_burst, 9);
    assert_eq!(p.remaining_burst, 9);
    assert_eq!(p.memory_req, 128);
    assert_eq!(p.arrival_time, 0);
    assert_eq!(p.start_time, None);
    assert_eq!(p.finish_time, None);
    assert!(p.io_operations.is_empty());
    assert!(!p.is_finished());

    let q = Process::with_arrival(4, 0, 1, 17);
    assert_eq!(q.arrival_time, 17);
    assert_eq!(q.state, ProcessState::Ready);
    // Nothing is left to run.
    assert!(q.is_finished());
}

#[test]
fn process_times() {
    let mut p = Process::with_arrival(1, 5, 0, 10);
    assert_eq!(p.waiting_time(100), 0);
    assert_eq!(p.turnaround_time(), 0);
    assert_eq!(p.response_time(), None);

    p.mark_started(12);
    assert_eq!(p.start_time, Some(12));
    assert_eq!(p.response_time(), Some(2));
    // Only the first start counts.
    p.mark_started(20);
    assert_eq!(p.start_time, Some(12));

    p.mark_finished(30);
    assert_eq!(p.finish_time, Some(30));
    assert_eq!(p.state, ProcessState::Terminated);
    assert!(p.is_finished());
    assert_eq!(p.turnaround_time(), 20);
    assert_eq!(p.waiting_time(0), 15);
}

#[test]
fn process_times_do_not_go_below_zero() {
    let mut p = Process::with_arrival(1, 50, 0, 10);
    p.mark_started(3);
    assert_eq!(p.response_time(), Some(0));
    p.mark_finished(5);
    assert_eq!(p.turnaround_time(), 0);
    assert_eq!(p.waiting_time(0), 0);
    p.mark_finished(40);
    assert_eq!(p.turnaround_time(), 30);
    assert_eq!(p.waiting_time(0), 0);
}

#[test]
fn clone_keeps_every_field() {
    let mut p = Process::with_arrival(8, 6, 77, 2);
    p.mark_started(3);
    p.io_operations.push(11);
    p.remaining_burst = 4;
    let q = p.clone();
    assert_eq!(q.pid, 8);
    assert_eq!(q.cpu_burst, 6);
    assert_eq!(q.remaining_burst, 4);
    assert_eq!(q.memory_req, 77);
    assert_eq!(q.arrival_time, 2);
    assert_eq!(q.start_time, Some(3));
    assert_eq!(q.finish_time, None);
    assert_eq!(q.io_operations, vec![11]);
    assert_eq!(q.state, ProcessState::Ready);
}
