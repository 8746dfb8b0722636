use kernel_sim::modules::disk::read_block;
use kernel_sim::modules::disk::scheduler::{
    DiskRequest, DiskScheduler, DiskSimulator, FcfsScheduler, ScanDirection, ScanScheduler,
    SstfScheduler,
};

fn request(pid: u32, cylinder: usize) -> DiskRequest {
    DiskRequest { pid, cylinder, timestamp: pid as u64 }
}

fn drain<S: DiskScheduler>(scheduler: &mut S, start: usize) -> Vec<usize> {
    let mut position = start;
    let mut order = Vec::new();
    while let Some(next) = scheduler.next_request(position) {
        position = next.cylinder;
        order.push(next.cylinder);
    }
    order
}

#[test]
fn test_fcfs_order() {
    let mut fcfs = FcfsScheduler::new();

    fcfs.add_request(DiskRequest { pid: 1, cylinder: 98, timestamp: 1 });
    fcfs.add_request(DiskRequest { pid: 2, cylinder: 183, timestamp: 2 });
    fcfs.add_request(DiskRequest { pid: 3, cylinder: 37, timestamp: 3 });

    assert_eq!(fcfs.next_request(50).unwrap().cylinder, 98);
    assert_eq!(fcfs.next_request(98).unwrap().cylinder, 183);
    assert_eq!(fcfs.next_request(183).unwrap().cylinder, 37);
}

#[test]
fn test_sstf_closest_first() {
    let mut sstf = SstfScheduler::new();

    sstf.add_request(DiskRequest { pid: 1, cylinder: 98, timestamp: 1 });
    sstf.add_request(DiskRequest { pid: 2, cylinder: 183, timestamp: 2 });
    sstf.add_request(DiskRequest { pid: 3, cylinder: 37, timestamp: 3 });

    // From cylinder 50 the nearest is 37, at a distance of 13.
    assert_eq!(sstf.next_request(50).unwrap().cylinder, 37);
}

#[test]
fn test_disk_simulator() {
    let mut fcfs = FcfsScheduler::new();
    fcfs.add_request(DiskRequest { pid: 1, cylinder: 10, timestamp: 1 });
    fcfs.add_request(DiskRequest { pid: 2, cylinder: 30, timestamp: 2 });

    let mut sim = DiskSimulator::new(0);
    sim.process_all(&mut fcfs);

    // The head moves 0 -> 10 (10) and 10 -> 30 (20): 30 in all.
    assert_eq!(sim.total_movement(), 30);
}

#[test]
fn sstf_serves_the_nearest_from_where_the_head_stands() {
    let mut sstf = SstfScheduler::new();
    for (i, cylinder) in [98usize, 183, 37, 122, 14, 124, 65, 67].iter().enumerate() {
        sstf.add_request(request(i as u32, *cylinder));
    }
    assert_eq!(drain(&mut sstf, 53), vec![65, 67, 37, 14, 98, 122, 124, 183]);
    assert!(sstf.is_empty());
    assert!(sstf.next_request(0).is_none());
}

#[test]
fn sstf_takes_the_earlier_of_two_equally_near() {
    let mut sstf = SstfScheduler::new();
    sstf.add_request(request(1, 60));
    sstf.add_request(request(2, 40));
    let first = sstf.next_request(50).unwrap();
    assert_eq!((first.pid, first.cylinder), (1, 60));
}

#[test]
fn scan_sweeps_up_then_down() {
    let mut scan = ScanScheduler::new(199, ScanDirection::Up);
    for (i, cylinder) in [98usize, 183, 37, 122, 14, 124, 65, 67].iter().enumerate() {
        scan.add_request(request(i as u32, *cylinder));
    }
    assert!(!scan.is_empty());
    assert_eq!(drain(&mut scan, 53), vec![65, 67, 98, 122, 124, 183, 37, 14]);
    assert!(scan.is_empty());
    assert!(scan.next_request(0).is_none());
}

#[test]
fn scan_sweeps_down_then_up() {
    let mut scan = ScanScheduler::new(199, ScanDirection::Down);
    for (i, cylinder) in [98usize, 183, 37, 122, 14, 124, 65, 67].iter().enumerate() {
        scan.add_request(request(i as u32, *cylinder));
    }
    assert_eq!(drain(&mut scan, 53), vec![37, 14, 65, 67, 98, 122, 124, 183]);
}

#[test]
fn scan_that_turns_round_takes_the_farthest_first() {
    // Nothing lies ahead of the head: it turns and takes the highest
    // cylinder behind it, then goes on downwards.
    let mut scan = ScanScheduler::new(199, ScanDirection::Up);
    scan.add_request(request(1, 10));
    scan.add_request(request(2, 40));
    scan.add_request(request(3, 20));
    assert_eq!(drain(&mut scan, 100), vec![40, 20, 10]);

    let mut scan = ScanScheduler::new(199, ScanDirection::Down);
    scan.add_request(request(1, 150));
    scan.add_request(request(2, 120));
    scan.add_request(request(3, 180));
    assert_eq!(drain(&mut scan, 100), vec![120, 150, 180]);
}

#[test]
fn scan_keeps_arrival_order_on_one_cylinder() {
    let mut scan = ScanScheduler::new(199, ScanDirection::Up);
    scan.add_request(request(1, 70));
    scan.add_request(request(2, 60));
    scan.add_request(request(3, 70));
    scan.add_request(request(4, 60));
    let mut pids = Vec::new();
    let mut position = 50;
    while let Some(next) = scan.next_request(position) {
        position = next.cylinder;
        pids.push(next.pid);
    }
    assert_eq!(pids, vec![2, 4, 1, 3]);
}

#[test]
fn scan_serves_a_request_at_the_head() {
    let mut scan = ScanScheduler::new(199, ScanDirection::Up);
    scan.add_request(request(1, 50));
    scan.add_request(request(2, 49));
    assert_eq!(drain(&mut scan, 50), vec![50, 49]);

    let mut scan = ScanScheduler::new(199, ScanDirection::Down);
    scan.add_request(request(1, 50));
    scan.add_request(request(2, 51));
    assert_eq!(drain(&mut scan, 50), vec![50, 51]);
}

#[test]
fn scheduler_names() {
    assert_eq!(FcfsScheduler::new().name(), "FCFS");
    assert_eq!(SstfScheduler::new().name(), "SSTF");
    assert_eq!(ScanScheduler::new(10, ScanDirection::Up).name(), "SCAN");
    assert!(FcfsScheduler::new().is_empty());
    assert!(FcfsScheduler::new().next_request(5).is_none());
}

#[test]
fn simulator_records_every_move() {
    let mut sstf = SstfScheduler::new();
    for (i, cylinder) in [98usize, 183, 37, 122, 14, 124, 65, 67].iter().enumerate() {
        sstf.add_request(request(i as u32, *cylinder));
    }
    let mut sim = DiskSimulator::new(53);
    let served = sim.process_all(&mut sstf);
    assert_eq!(
        served.iter().map(|r| r.cylinder).collect::<Vec<_>>(),
        vec![65, 67, 37, 14, 98, 122, 124, 183]
    );
    assert_eq!(sim.total_movement(), 236);
    assert_eq!(sim.requests_served(), 8);
    assert_eq!(sim.current_position(), 183);
    assert_eq!(
        sim.history(),
        &vec![
            (53, 65),
            (65, 67),
            (67, 37),
            (37, 14),
            (14, 98),
            (98, 122),
            (122, 124),
            (124, 183)
        ]
    );
    assert!(sstf.is_empty());
}

#[test]
fn simulator_compares_the_policies() {
    let cylinders = [98usize, 183, 37, 122, 14, 124, 65, 67];
    let mut fcfs = FcfsScheduler::new();
    let mut scan = ScanScheduler::new(199, ScanDirection::Up);
    for (i, cylinder) in cylinders.iter().enumerate() {
        fcfs.add_request(request(i as u32, *cylinder));
        scan.add_request(request(i as u32, *cylinder));
    }
    let mut sim = DiskSimulator::new(53);
    sim.process_all(&mut fcfs);
    assert_eq!(sim.total_movement(), 640);
    sim.reset(53);
    assert_eq!(sim.total_movement(), 0);
    assert_eq!(sim.requests_served(), 0);
    assert_eq!(sim.current_position(), 53);
    assert!(sim.history().is_empty());
    sim.process_all(&mut scan);
    // Up to 183, then down to 14.
    assert_eq!(sim.total_movement(), (183 - 53) + (183 - 14));
}

#[test]
fn simulator_without_requests_stays_put() {
    let mut fcfs = FcfsScheduler::new();
    let mut sim = DiskSimulator::new(7);
    let served = sim.process_all(&mut fcfs);
    assert!(served.is_empty());
    assert_eq!(sim.total_movement(), 0);
    assert_eq!(sim.current_position(), 7);
}

#[test]
fn a_block_is_512_zero_bytes() {
    let data = read_block(3);
    assert_eq!(data.len(), 512);
    assert!(data.iter().all(|b| *b == 0));
}
