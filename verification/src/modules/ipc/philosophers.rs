//! The dining philosophers, with forks that are semaphores. Every
//! philosopher takes the left fork first, but for the last, who takes the
//! right fork first: no cycle of waiting philosophers can form.
use vstd::prelude::*;
use crate::modules::ipc::sync::{Semaphore, SemaphoreView};

verus! {

/// State of a philosopher.
#[derive(Debug, Clone, Copy, PartialEq, Eq, Structural)]
pub enum PhilosopherState {
    Thinking,
    Hungry,
    Eating,
    Finished,
}

/// A philosopher.
#[derive(Debug, Clone, Copy)]
pub struct Philosopher {
    pub id: usize,
    pub state: PhilosopherState,
    pub times_eaten: u32,
}

/// Why a philosopher did not eat.
#[derive(Debug, Clone, Copy, PartialEq, Eq, Structural)]
pub enum PhilosopherError {
    /// No philosopher has this number.
    InvalidPhilosopher,
    /// The philosopher has to wait for the fork with this number.
    ForkBusy(usize),
}

/// The decimal digits of `n`, the most significant first.
pub open spec fn decimal(n: nat) -> Seq<char>
    decreases n,
{
    if n < 10 {
        seq![('0' as nat + n) as char]
    } else {
        decimal(n / 10).push(('0' as nat + n % 10) as char)
    }
}

/// The name of fork `index`: the text `fork_` and the number in decimal digits.
pub open spec fn fork_label(index: usize) -> Seq<char> {
    "fork_"@ + decimal(index as nat)
}

/// The name of fork `index`, made by `format!` from the text `fork_` and
/// the number, which `format!` writes as `Display` does: in decimal digits,
/// without sign or padding. The contract says just that of the result.
#[verifier::external_body]
fn fork_name(index: usize) -> (name: String)
    ensures
        name@ == fork_label(index),
{
    format!("fork_{}", index)
}

/// The mathematical value of a [`DiningPhilosophers`].
pub struct TableView {
    pub philosophers: Seq<Philosopher>,
    /// The forks; fork `i` lies to the left of philosopher `i`.
    pub forks: Seq<SemaphoreView>,
}

impl TableView {
    /// A table of `count` thinking philosophers with a free fork between
    /// each two neighbours.
    pub open spec fn initial(count: usize) -> TableView {
        TableView {
            philosophers: Seq::new(
                count as nat,
                |i: int|
                    Philosopher {
                        id: i as usize,
                        state: PhilosopherState::Thinking,
                        times_eaten: 0,
                    },
            ),
            forks: Seq::new(
                count as nat,
                |i: int| SemaphoreView::fresh(1, fork_label(i as usize)),
            ),
        }
    }

    /// Whether there are as many forks as philosophers.
    pub open spec fn valid(self) -> bool {
        self.forks.len() == self.philosophers.len() <= usize::MAX
    }

    /// The fork that philosopher `id` takes first.
    pub open spec fn first_fork(self, id: usize) -> int {
        if id == self.philosophers.len() - 1 {
            (id + 1) % (self.philosophers.len() as int)
        } else {
            id as int
        }
    }

    /// The fork that philosopher `id` takes second.
    pub open spec fn second_fork(self, id: usize) -> int {
        if id == self.philosophers.len() - 1 {
            id as int
        } else {
            (id + 1) % (self.philosophers.len() as int)
        }
    }

    /// The table with philosopher `id` in `state`.
    pub open spec fn in_state(self, id: usize, state: PhilosopherState) -> TableView {
        TableView {
            philosophers: self.philosophers.update(
                id as int,
                Philosopher { state, ..self.philosophers[id as int] },
            ),
            ..self
        }
    }

    /// The table after philosopher `id` has reached for fork `fork`.
    pub open spec fn reached(self, fork: int, id: usize) -> TableView {
        TableView { forks: self.forks.update(fork, self.forks[fork].waited(id as u32)), ..self }
    }

    /// The table after fork `fork` has been put down.
    pub open spec fn put_down(self, fork: int) -> TableView {
        TableView { forks: self.forks.update(fork, self.forks[fork].signalled()), ..self }
    }

    /// The table after philosopher `id` has eaten and gone back to thinking.
    pub open spec fn fed(self, id: usize) -> TableView {
        TableView {
            philosophers: self.philosophers.update(
                id as int,
                Philosopher {
                    state: PhilosopherState::Thinking,
                    times_eaten: (self.philosophers[id as int].times_eaten + 1) as u32,
                    ..self.philosophers[id as int]
                },
            ),
            ..self
        }
    }

    /// The table after philosopher `id` has tried to eat, and the outcome.
    /// The philosopher gets hungry and reaches for the two forks in turn. One
    /// who does not get the first fork stays hungry in the queue of the fork.
    /// One who does not get the second puts the first down again. One who
    /// gets both eats, puts both down, and thinks.
    pub open spec fn try_eat(self, id: usize) -> (TableView, Result<(), PhilosopherError>) {
        let first = self.first_fork(id);
        let second = self.second_fork(id);
        let hungry = self.in_state(id, PhilosopherState::Hungry);
        let one = hungry.reached(first, id);
        let two = one.reached(second, id);
        if id >= self.philosophers.len() {
            (self, Err(PhilosopherError::InvalidPhilosopher))
        } else if !hungry.forks[first].passes() {
            (one, Err(PhilosopherError::ForkBusy(first as usize)))
        } else if !one.forks[second].passes() {
            (two.put_down(first), Err(PhilosopherError::ForkBusy(second as usize)))
        } else {
            (two.put_down(second).put_down(first).fed(id), Ok(()))
        }
    }

    /// Whether no count leaves its range while philosopher `id` tries to eat.
    pub open spec fn can_try_eat(self, id: usize) -> bool {
        let first = self.first_fork(id);
        let second = self.second_fork(id);
        let one = self.reached(first, id);
        id < self.philosophers.len() ==> {
            &&& self.forks[first].count > i32::MIN
            &&& self.forks[first].passes() ==> {
                &&& one.forks[second].count > i32::MIN
                &&& one.forks[second].passes() ==> self.philosophers[id as int].times_eaten
                    < u32::MAX
            }
        }
    }

    /// The table after the first `k` philosophers have tried to eat, one
    /// after the other.
    pub open spec fn served(self, k: nat) -> TableView
        decreases k,
    {
        if k == 0 {
            self
        } else {
            self.served((k - 1) as nat).try_eat((k - 1) as usize).0
        }
    }

    /// Whether no count leaves its range while the first `k` philosophers
    /// try to eat, one after the other.
    pub open spec fn can_serve(self, k: nat) -> bool
        decreases k,
    {
        k == 0 || (self.can_serve((k - 1) as nat) && self.served((k - 1) as nat).can_try_eat(
            (k - 1) as usize,
        ))
    }

    /// The table after `steps` rounds in each of which every philosopher
    /// tries to eat.
    pub open spec fn simulated(self, steps: nat) -> TableView
        decreases steps,
    {
        if steps == 0 {
            self
        } else {
            self.served(self.philosophers.len()).simulated((steps - 1) as nat)
        }
    }

    /// Whether no count leaves its range during `steps` rounds.
    pub open spec fn can_simulate(self, steps: nat) -> bool
        decreases steps,
    {
        steps == 0 || (self.can_serve(self.philosophers.len()) && self.served(
            self.philosophers.len(),
        ).can_simulate((steps - 1) as nat))
    }

    /// Whether every fork lies free on the table and nobody waits for one.
    pub open spec fn rested(self) -> bool {
        forall|f: int|
            0 <= f < self.forks.len() ==> (#[trigger] self.forks[f]).count == 1
                && self.forks[f].waiting.len() == 0
    }
}

/// A try to eat leaves the numbers of philosophers and forks as they are.
pub proof fn lemma_try_eat_valid(table: TableView, id: usize)
    requires
        table.valid(),
    ensures
        table.try_eat(id).0.valid(),
        table.try_eat(id).0.philosophers.len() == table.philosophers.len(),
{
}

/// So do the tries of the first `k` philosophers.
pub proof fn lemma_served_valid(table: TableView, k: nat)
    requires
        table.valid(),
    ensures
        table.served(k).valid(),
        table.served(k).philosophers.len() == table.philosophers.len(),
    decreases k,
{
    if k > 0 {
        lemma_served_valid(table, (k - 1) as nat);
        lemma_try_eat_valid(table.served((k - 1) as nat), (k - 1) as usize);
    }
}

/// At a table of at least two where every fork lies free, a philosopher who
/// tries to eat does eat, and leaves every fork free.
pub proof fn lemma_rested_try_eat(table: TableView, id: usize)
    requires
        table.valid(),
        table.rested(),
        table.philosophers.len() >= 2,
        id < table.philosophers.len(),
    ensures
        table.try_eat(id) == (table.fed(id), Ok::<(), PhilosopherError>(())),
        table.fed(id).rested(),
        table.philosophers[id as int].times_eaten < u32::MAX ==> table.can_try_eat(id),
{
    let n = table.philosophers.len() as int;
    let first = table.first_fork(id);
    let second = table.second_fork(id);
    assert(0 <= (id + 1) % n < n && (id + 1) % n != id) by {
        if id + 1 < n {
            vstd::arithmetic::div_mod::lemma_small_mod((id + 1) as nat, n as nat);
        } else {
            vstd::arithmetic::div_mod::lemma_mod_self_0(n);
        }
    }
    let hungry = table.in_state(id, PhilosopherState::Hungry);
    let one = hungry.reached(first, id);
    let two = one.reached(second, id);
    let done = two.put_down(second).put_down(first);
    assert(table.forks[first].count == 1 && table.forks[second].count == 1);
    assert(done.forks =~= table.forks);
    assert(done.fed(id).philosophers =~= table.fed(id).philosophers);
}

/// At such a table, when the first `k` philosophers try to eat, each of
/// them eats once, and every fork is free again.
pub proof fn lemma_rested_served(table: TableView, k: nat)
    requires
        table.valid(),
        table.rested(),
        table.philosophers.len() >= 2,
        k <= table.philosophers.len(),
        forall|i: int|
            0 <= i < table.philosophers.len() ==> (#[trigger] table.philosophers[i]).times_eaten
                < u32::MAX,
    ensures
        table.can_serve(k),
        table.served(k).valid(),
        table.served(k).rested(),
        table.served(k).forks == table.forks,
        table.served(k).philosophers.len() == table.philosophers.len(),
        forall|i: int|
            0 <= i < table.philosophers.len() ==> #[trigger] table.served(k).philosophers[i] == (
            if i < k {
                Philosopher {
                    state: PhilosopherState::Thinking,
                    times_eaten: (table.philosophers[i].times_eaten + 1) as u32,
                    ..table.philosophers[i]
                }
            } else {
                table.philosophers[i]
            }),
    decreases k,
{
    if k > 0 {
        let before = table.served((k - 1) as nat);
        lemma_rested_served(table, (k - 1) as nat);
        assert(before.philosophers[k - 1] == table.philosophers[k - 1]);
        lemma_rested_try_eat(before, (k - 1) as usize);
    }
}

/// At a table of at least two where every fork lies free, nobody starves:
/// in each of `steps` rounds every philosopher eats once, and every fork is
/// free again afterwards.
pub proof fn lemma_nobody_starves(table: TableView, steps: nat)
    requires
        table.valid(),
        table.rested(),
        table.philosophers.len() >= 2,
        forall|i: int|
            0 <= i < table.philosophers.len() ==> (#[trigger] table.philosophers[i]).times_eaten
                + steps <= u32::MAX,
    ensures
        table.can_simulate(steps),
        table.simulated(steps).valid(),
        table.simulated(steps).rested(),
        table.simulated(steps).philosophers.len() == table.philosophers.len(),
        forall|i: int|
            0 <= i < table.philosophers.len() ==> (#[trigger] table.simulated(
                steps,
            ).philosophers[i]).times_eaten == table.philosophers[i].times_eaten + steps,
    decreases steps,
{
    if steps > 0 {
        let n = table.philosophers.len();
        lemma_rested_served(table, n);
        let next = table.served(n);
        assert forall|i: int| 0 <= i < next.philosophers.len() implies (
        #[trigger] next.philosophers[i]).times_eaten + (steps - 1) <= u32::MAX by {
            assert(table.philosophers[i].times_eaten + steps <= u32::MAX);
        }
        lemma_nobody_starves(next, (steps - 1) as nat);
        assert forall|i: int| 0 <= i < table.philosophers.len() implies (
        #[trigger] table.simulated(steps).philosophers[i]).times_eaten
            == table.philosophers[i].times_eaten + steps by {
            assert(next.simulated((steps - 1) as nat).philosophers[i].times_eaten
                == next.philosophers[i].times_eaten + (steps - 1));
            assert(table.philosophers[i].times_eaten + steps <= u32::MAX);
        }
    }
}

/// Philosophers round a table with a fork between each two neighbours.
pub struct DiningPhilosophers {
    philosophers: Vec<Philosopher>,
    /// One semaphore for each fork.
    forks: Vec<Semaphore>,
    total_philosophers: usize,
}

impl View for DiningPhilosophers {
    type V = TableView;

    closed spec fn view(&self) -> TableView {
        TableView {
            philosophers: self.philosophers@,
            forks: self.forks@.map_values(|s: Semaphore| s@),
        }
    }
}

impl DiningPhilosophers {
    /// Whether the count of philosophers is the number of philosophers.
    pub closed spec fn counted(&self) -> bool {
        self.total_philosophers == self.philosophers@.len()
    }

    /// The invariant of the table.
    pub open spec fn wf(&self) -> bool {
        self@.valid() && self.counted()
    }

    /// A table of `count` thinking philosophers.
    pub fn new(count: usize) -> (table: Self)
        ensures
            table.wf(),
            table@ == TableView::initial(count),
    {
        let mut philosophers: Vec<Philosopher> = Vec::with_capacity(count);
        let mut forks: Vec<Semaphore> = Vec::with_capacity(count);
        let mut i: usize = 0;
        while i < count
            invariant
                i <= count,
                philosophers@.len() == i,
                forks@.len() == i,
                forall|k: int|
                    0 <= k < i ==> #[trigger] philosophers@[k] == (Philosopher {
                        id: k as usize,
                        state: PhilosopherState::Thinking,
                        times_eaten: 0,
                    }),
                forall|k: int|
                    0 <= k < i ==> (#[trigger] forks@[k])@ == SemaphoreView::fresh(
                        1,
                        fork_label(k as usize),
                    ),
            decreases count - i,
        {
            philosophers.push(Philosopher { id: i, state: PhilosopherState::Thinking, times_eaten: 0 });
            let name = fork_name(i);
            forks.push(Semaphore::new(1, name.as_str()));
            i += 1;
        }
        let table = Self { philosophers, forks, total_philosophers: count };
        proof {
            assert(table@.philosophers =~= TableView::initial(count).philosophers);
            assert(table@.forks =~= TableView::initial(count).forks);
        }
        table
    }

    /// Philosopher `philosopher_id` tries to eat.
    pub fn try_eat(&mut self, philosopher_id: usize) -> (result: Result<(), PhilosopherError>)
        requires
            old(self).wf(),
            old(self)@.can_try_eat(philosopher_id),
        ensures
            final(self).wf(),
            (final(self)@, result) == old(self)@.try_eat(philosopher_id),
    {
        if philosopher_id >= self.total_philosophers {
            return Err(PhilosopherError::InvalidPhilosopher);
        }
        let ghost before = self@;
        let left_fork: usize = philosopher_id;
        let right_fork: usize = (philosopher_id + 1) % self.total_philosophers;
        self.philosophers[philosopher_id].state = PhilosopherState::Hungry;
        let ghost hungry = self@;
        assert(hungry == before.in_state(philosopher_id, PhilosopherState::Hungry));

        // The last philosopher reaches for the right fork first, the others
        // for the left one.
        let (first_fork, second_fork) = if philosopher_id == self.total_philosophers - 1 {
            (right_fork, left_fork)
        } else {
            (left_fork, right_fork)
        };
        assert(first_fork == before.first_fork(philosopher_id));
        assert(second_fork == before.second_fork(philosopher_id));

        let pid: u32 = #[verifier::truncate] (philosopher_id as u32);
        if !self.forks[first_fork].wait(pid) {
            assert(self@.forks =~= hungry.reached(first_fork as int, philosopher_id).forks);
            return Err(PhilosopherError::ForkBusy(first_fork));
        }
        let ghost one = self@;
        assert(one.forks =~= hungry.reached(first_fork as int, philosopher_id).forks);

        if !self.forks[second_fork].wait(pid) {
            let ghost two = self@;
            assert(two.forks =~= one.reached(second_fork as int, philosopher_id).forks);
            self.forks[first_fork].signal();
            assert(self@.forks =~= two.put_down(first_fork as int).forks);
            return Err(PhilosopherError::ForkBusy(second_fork));
        }
        let ghost two = self@;
        assert(two.forks =~= one.reached(second_fork as int, philosopher_id).forks);

        self.philosophers[philosopher_id].state = PhilosopherState::Eating;
        self.philosophers[philosopher_id].times_eaten += 1;

        self.forks[second_fork].signal();
        let ghost three = self@;
        assert(three.forks =~= two.put_down(second_fork as int).forks);
        self.forks[first_fork].signal();
        assert(self@.forks =~= three.put_down(first_fork as int).forks);

        self.philosophers[philosopher_id].state = PhilosopherState::Thinking;
        proof {
            let done = two.put_down(second_fork as int).put_down(first_fork as int);
            assert(self@.forks =~= done.forks);
            assert(self@.philosophers =~= done.fed(philosopher_id).philosophers);
        }
        Ok(())
    }

    /// One round: every philosopher tries to eat, one after the other.
    pub fn round(&mut self)
        requires
            old(self).wf(),
            old(self)@.can_serve(old(self)@.philosophers.len()),
        ensures
            final(self).wf(),
            final(self)@ == old(self)@.served(old(self)@.philosophers.len()),
    {
        let ghost start = self@;
        let mut i: usize = 0;
        while i < self.total_philosophers
            invariant
                self.wf(),
                start.valid(),
                i <= self.total_philosophers,
                self.total_philosophers == start.philosophers.len(),
                self@ == start.served(i as nat),
                start.can_serve(start.philosophers.len()),
            decreases self.total_philosophers - i,
        {
            proof {
                lemma_can_serve_prefix(start, start.philosophers.len(), (i + 1) as nat);
            }
            let _ = self.try_eat(i);
            i += 1;
        }
    }

    /// `steps` rounds in each of which every philosopher tries to eat.
    pub fn simulate(&mut self, steps: usize)
        requires
            old(self).wf(),
            old(self)@.can_simulate(steps as nat),
        ensures
            final(self).wf(),
            final(self)@ == old(self)@.simulated(steps as nat),
    {
        let ghost start = self@;
        let mut step: usize = 0;
        while step < steps
            invariant
                self.wf(),
                step <= steps,
                self@.can_simulate((steps - step) as nat),
                self@.simulated((steps - step) as nat) == start.simulated(steps as nat),
            decreases steps - step,
        {
            self.round();
            step += 1;
        }
    }

    /// The philosophers, by number.
    pub fn philosophers(&self) -> (philosophers: &Vec<Philosopher>)
        ensures
            philosophers@ == self@.philosophers,
    {
        &self.philosophers
    }

    /// The forks, by number, each as its semaphore.
    pub fn forks(&self) -> (forks: &Vec<Semaphore>)
        ensures
            forks@.map_values(|s: Semaphore| s@) == self@.forks,
    {
        &self.forks
    }

    /// The number of philosophers.
    pub fn total_philosophers(&self) -> (total: usize)
        requires
            self.wf(),
        ensures
            total == self@.philosophers.len(),
    {
        self.total_philosophers
    }
}

/// Where the first `k` philosophers can try to eat without a count leaving
/// its range, so can the first `j` of them.
pub proof fn lemma_can_serve_prefix(table: TableView, k: nat, j: nat)
    requires
        table.can_serve(k),
        j <= k,
    ensures
        table.can_serve(j),
    decreases k,
{
    if j < k {
        lemma_can_serve_prefix(table, (k - 1) as nat, j);
    }
}

} // verus!
