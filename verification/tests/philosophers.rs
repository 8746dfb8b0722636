use kernel_sim::modules::ipc::philosophers::{
    DiningPhilosophers, PhilosopherError, PhilosopherState,
};

#[test]
fn test_philosophers_no_deadlock() {
    let mut dining = DiningPhilosophers::new(5);

    for _ in 0..10 {
        for i in 0..5 {
            let _ = dining.try_eat(i);
        }
    }

    // Everybody has eaten at least once: nobody starves.
    for phil in dining.philosophers() {
        assert!(phil.times_eaten > 0, "Filósofo {} no comió", phil.id);
    }
}

#[test]
fn fresh_table() {
    let dining = DiningPhilosophers::new(3);
    assert_eq!(dining.total_philosophers(), 3);
    for (i, phil) in dining.philosophers().iter().enumerate() {
        assert_eq!(phil.id, i);
        assert_eq!(phil.state, PhilosopherState::Thinking);
        assert_eq!(phil.times_eaten, 0);
    }
    let names: Vec<&str> = dining.forks().iter().map(|f| f.name().as_str()).collect();
    assert_eq!(names, vec!["fork_0", "fork_1", "fork_2"]);
    for fork in dining.forks() {
        assert_eq!((fork.count(), fork.waiting_count()), (1, 0));
    }
}

#[test]
fn fork_names_count_in_decimal() {
    let dining = DiningPhilosophers::new(12);
    assert_eq!(dining.forks()[0].name(), "fork_0");
    assert_eq!(dining.forks()[9].name(), "fork_9");
    assert_eq!(dining.forks()[10].name(), "fork_10");
    assert_eq!(dining.forks()[11].name(), "fork_11");
}

#[test]
fn a_philosopher_who_eats_puts_the_forks_back() {
    let mut dining = DiningPhilosophers::new(4);
    assert_eq!(dining.try_eat(2), Ok(()));
    assert_eq!(dining.try_eat(3), Ok(()));
    assert_eq!(dining.try_eat(2), Ok(()));
    let eaten: Vec<u32> = dining.philosophers().iter().map(|p| p.times_eaten).collect();
    assert_eq!(eaten, vec![0, 0, 2, 1]);
    for phil in dining.philosophers() {
        assert_eq!(phil.state, PhilosopherState::Thinking);
    }
    for fork in dining.forks() {
        assert_eq!((fork.count(), fork.waiting_count()), (1, 0));
    }
}

#[test]
fn unknown_philosopher_is_rejected() {
    let mut dining = DiningPhilosophers::new(3);
    assert_eq!(dining.try_eat(3), Err(PhilosopherError::InvalidPhilosopher));
    assert_eq!(dining.try_eat(100), Err(PhilosopherError::InvalidPhilosopher));
    for phil in dining.philosophers() {
        assert_eq!(phil.state, PhilosopherState::Thinking);
    }
    let mut nobody = DiningPhilosophers::new(0);
    assert_eq!(nobody.try_eat(0), Err(PhilosopherError::InvalidPhilosopher));
    nobody.simulate(3);
    assert!(nobody.philosophers().is_empty());
}

#[test]
fn a_lone_philosopher_has_one_fork_and_stays_hungry() {
    let mut dining = DiningPhilosophers::new(1);
    // Both hands reach for the same fork: the second finds it taken, and
    // the first puts it down again, which wakes the philosopher's own wait.
    assert_eq!(dining.try_eat(0), Err(PhilosopherError::ForkBusy(0)));
    assert_eq!(dining.philosophers()[0].state, PhilosopherState::Hungry);
    assert_eq!(dining.philosophers()[0].times_eaten, 0);
    assert_eq!((dining.forks()[0].count(), dining.forks()[0].waiting_count()), (0, 0));
    // Now the fork counts as taken.
    assert_eq!(dining.try_eat(0), Err(PhilosopherError::ForkBusy(0)));
    assert_eq!((dining.forks()[0].count(), dining.forks()[0].waiting_count()), (-1, 1));
}

#[test]
fn every_round_feeds_everybody() {
    let mut dining = DiningPhilosophers::new(5);
    dining.round();
    let eaten: Vec<u32> = dining.philosophers().iter().map(|p| p.times_eaten).collect();
    assert_eq!(eaten, vec![1, 1, 1, 1, 1]);
    dining.simulate(9);
    let eaten: Vec<u32> = dining.philosophers().iter().map(|p| p.times_eaten).collect();
    assert_eq!(eaten, vec![10, 10, 10, 10, 10]);
    for fork in dining.forks() {
        assert_eq!((fork.count(), fork.waiting_count()), (1, 0));
    }
}
