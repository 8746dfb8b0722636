//! Counting semaphores and a bounded buffer shared by producers and consumers.
use vstd::prelude::*;
use std::collections::VecDeque;

verus! {

broadcast use vstd::string::to_string_from_display_ensures_for_str;

/// The mathematical value of a [`Semaphore`].
pub struct SemaphoreView {
    pub count: i32,
    /// The processes that wait, longest wait first.
    pub waiting: Seq<u32>,
    pub name: Seq<char>,
}

impl SemaphoreView {
    /// A semaphore on which nobody waits.
    pub open spec fn fresh(initial_value: i32, name: Seq<char>) -> SemaphoreView {
        SemaphoreView { count: initial_value, waiting: Seq::empty(), name }
    }

    /// Whether a process that waits now passes.
    pub open spec fn passes(self) -> bool {
        self.count >= 1
    }

    /// The semaphore after `pid` has waited on it: the count goes down by
    /// one, and a process that does not pass joins the queue.
    pub open spec fn waited(self, pid: u32) -> SemaphoreView {
        SemaphoreView {
            count: (self.count - 1) as i32,
            waiting: if self.passes() {
                self.waiting
            } else {
                self.waiting.push(pid)
            },
            ..self
        }
    }

    /// The process that a signal wakes, if any: the one that has waited
    /// longest, where the count shows that some process waits.
    pub open spec fn woken(self) -> Option<u32> {
        if self.count < 0 && self.waiting.len() > 0 {
            Some(self.waiting[0])
        } else {
            None
        }
    }

    /// The semaphore after a signal: the count goes up by one, and the
    /// process that is woken leaves the queue.
    pub open spec fn signalled(self) -> SemaphoreView {
        SemaphoreView {
            count: (self.count + 1) as i32,
            waiting: if self.woken() is Some {
                self.waiting.drop_first()
            } else {
                self.waiting
            },
            ..self
        }
    }
}

/// A counting semaphore with a queue of waiting processes.
#[derive(Debug, Clone)]
pub struct Semaphore {
    count: i32,
    waiting_queue: VecDeque<u32>,
    name: String,
}

impl View for Semaphore {
    type V = SemaphoreView;

    closed spec fn view(&self) -> SemaphoreView {
        SemaphoreView { count: self.count, waiting: self.waiting_queue@, name: self.name@ }
    }
}

impl Semaphore {
    /// A semaphore with the given count on which nobody waits.
    pub fn new(initial_value: i32, name: &str) -> (semaphore: Self)
        ensures
            semaphore@ == SemaphoreView::fresh(initial_value, name@),
    {
        Self { count: initial_value, waiting_queue: VecDeque::new(), name: name.to_string() }
    }

    /// The operation P: takes one unit. Returns whether `pid` passes; a
    /// process that does not pass is queued.
    pub fn wait(&mut self, pid: u32) -> (passes: bool)
        requires
            old(self)@.count > i32::MIN,
        ensures
            passes == old(self)@.passes(),
            final(self)@ == old(self)@.waited(pid),
    {
        self.count -= 1;
        if self.count < 0 {
            self.waiting_queue.push_back(pid);
            false
        } else {
            true
        }
    }

    /// The operation V: gives one unit back. Returns the process that is
    /// woken, if any.
    pub fn signal(&mut self) -> (woken: Option<u32>)
        requires
            old(self)@.count < i32::MAX,
        ensures
            woken == old(self)@.woken(),
            final(self)@ == old(self)@.signalled(),
    {
        self.count += 1;
        if self.count <= 0 {
            if let Some(pid) = self.waiting_queue.pop_front() {
                assert(self.waiting_queue@ =~= old(self)@.waiting.drop_first());
                return Some(pid);
            }
        }
        None
    }

    /// The count: the units that are free or, below zero, the processes
    /// that were made to wait.
    pub fn count(&self) -> (count: i32)
        ensures
            count == self@.count,
    {
        self.count
    }

    /// The number of processes in the queue.
    pub fn waiting_count(&self) -> (waiting: usize)
        ensures
            waiting == self@.waiting.len(),
    {
        self.waiting_queue.len()
    }

    /// The name of the semaphore.
    pub fn name(&self) -> (name: &String)
        ensures
            name@ == self@.name,
    {
        &self.name
    }
}

/// Why a producer or a consumer could not go on.
#[derive(Debug, Clone, Copy, PartialEq, Eq, Structural)]
pub enum BufferError {
    /// The producer has to wait for room in the buffer.
    ProducerBlocked,
    /// The consumer has to wait for an item.
    ConsumerBlocked,
    /// The process has to wait for the lock.
    MutexBlocked,
    /// The producer passed although the buffer is full.
    BufferFull,
    /// The consumer passed although the buffer is empty.
    BufferEmpty,
}

/// The mathematical value of a [`ProducerConsumerBuffer`].
pub struct BufferView {
    /// The items, oldest first.
    pub items: Seq<Seq<char>>,
    pub capacity: usize,
    /// Guards the buffer.
    pub mutex: SemaphoreView,
    /// Counts the free places.
    pub empty: SemaphoreView,
    /// Counts the items.
    pub full: SemaphoreView,
    pub total_produced: nat,
    pub total_consumed: nat,
}

impl BufferView {
    /// An empty buffer with room for `capacity` items.
    pub open spec fn fresh(capacity: usize) -> BufferView {
        BufferView {
            items: Seq::empty(),
            capacity,
            mutex: SemaphoreView::fresh(1, "mutex"@),
            empty: SemaphoreView::fresh(capacity as i32, "empty"@),
            full: SemaphoreView::fresh(0, "full"@),
            total_produced: 0,
            total_consumed: 0,
        }
    }

    /// The buffer after process `pid` has tried to add `item`, and the
    /// outcome. The producer waits for a free place, then for the lock. A
    /// producer that has to wait stays in the queue of the semaphore and
    /// gives up; what it has taken before, it keeps.
    pub open spec fn produce(self, item: Seq<char>, pid: u32) -> (
        BufferView,
        Result<(), BufferError>,
    ) {
        let with_place = BufferView { empty: self.empty.waited(pid), ..self };
        let locked = BufferView { mutex: self.mutex.waited(pid), ..with_place };
        if !self.empty.passes() {
            (with_place, Err(BufferError::ProducerBlocked))
        } else if !self.mutex.passes() {
            (locked, Err(BufferError::MutexBlocked))
        } else if self.items.len() >= self.capacity {
            (
                BufferView {
                    mutex: locked.mutex.signalled(),
                    empty: locked.empty.signalled(),
                    ..locked
                },
                Err(BufferError::BufferFull),
            )
        } else {
            (
                BufferView {
                    items: self.items.push(item),
                    total_produced: self.total_produced + 1,
                    mutex: locked.mutex.signalled(),
                    full: self.full.signalled(),
                    ..locked
                },
                Ok(()),
            )
        }
    }

    /// Whether no count leaves its range while a producer tries to add an item.
    pub open spec fn can_produce(self) -> bool {
        &&& self.empty.count > i32::MIN
        &&& self.empty.passes() ==> self.mutex.count > i32::MIN
        &&& self.empty.passes() && self.mutex.passes() && self.items.len() < self.capacity ==> {
            &&& self.full.count < i32::MAX
            &&& self.total_produced < u64::MAX
        }
    }

    /// The buffer after process `pid` has tried to take an item, and the
    /// outcome. The consumer waits for an item, then for the lock. A consumer
    /// that has to wait stays in the queue of the semaphore and gives up;
    /// what it has taken before, it keeps.
    pub open spec fn consume(self, pid: u32) -> (BufferView, Result<Seq<char>, BufferError>) {
        let with_item = BufferView { full: self.full.waited(pid), ..self };
        let locked = BufferView { mutex: self.mutex.waited(pid), ..with_item };
        if !self.full.passes() {
            (with_item, Err(BufferError::ConsumerBlocked))
        } else if !self.mutex.passes() {
            (locked, Err(BufferError::MutexBlocked))
        } else if self.items.len() == 0 {
            (
                BufferView {
                    mutex: locked.mutex.signalled(),
                    full: locked.full.signalled(),
                    ..locked
                },
                Err(BufferError::BufferEmpty),
            )
        } else {
            (
                BufferView {
                    items: self.items.drop_first(),
                    total_consumed: self.total_consumed + 1,
                    mutex: locked.mutex.signalled(),
                    empty: self.empty.signalled(),
                    ..locked
                },
                Ok(self.items[0]),
            )
        }
    }

    /// Whether no count leaves its range while a consumer tries to take an item.
    pub open spec fn can_consume(self) -> bool {
        &&& self.full.count > i32::MIN
        &&& self.full.passes() ==> self.mutex.count > i32::MIN
        &&& self.full.passes() && self.mutex.passes() && self.items.len() > 0 ==> {
            &&& self.empty.count < i32::MAX
            &&& self.total_consumed < u64::MAX
        }
    }
}

impl BufferView {
    /// Whether the semaphores agree with the buffer: the lock is free, no
    /// more places count as free than are free, and no more items count as
    /// present than are present.
    pub open spec fn consistent(self) -> bool {
        &&& self.mutex.count == 1
        &&& self.mutex.waiting.len() == 0
        &&& self.empty.count + self.items.len() <= self.capacity
        &&& self.full.count <= self.items.len()
    }
}

/// A fresh buffer is consistent.
pub proof fn lemma_fresh_consistent(capacity: usize)
    ensures
        BufferView::fresh(capacity).consistent(),
{
}

/// In a consistent buffer a producer never waits for the lock and never
/// finds the buffer full once it has passed; the buffer stays consistent,
/// and holds no more items than it has room for.
pub proof fn lemma_produce_consistent(buffer: BufferView, item: Seq<char>, pid: u32)
    requires
        buffer.consistent(),
        buffer.can_produce(),
    ensures
        buffer.produce(item, pid).0.consistent(),
        buffer.produce(item, pid).1 is Ok || buffer.produce(item, pid).1 == Err::<
            (),
            BufferError,
        >(BufferError::ProducerBlocked),
        buffer.produce(item, pid).1 is Ok <==> buffer.empty.passes(),
        buffer.items.len() <= buffer.capacity ==> buffer.produce(item, pid).0.items.len()
            <= buffer.capacity,
{
}

/// In a consistent buffer a consumer never waits for the lock and never
/// finds the buffer empty once it has passed; the buffer stays consistent.
pub proof fn lemma_consume_consistent(buffer: BufferView, pid: u32)
    requires
        buffer.consistent(),
        buffer.can_consume(),
    ensures
        buffer.consume(pid).0.consistent(),
        buffer.consume(pid).1 is Ok || buffer.consume(pid).1 == Err::<Seq<char>, BufferError>(
            BufferError::ConsumerBlocked,
        ),
        buffer.consume(pid).1 is Ok <==> buffer.full.passes(),
{
}

/// A bounded buffer that producers fill and consumers empty, guarded by
/// three semaphores.
#[derive(Debug)]
pub struct ProducerConsumerBuffer {
    buffer: VecDeque<String>,
    capacity: usize,
    mutex: Semaphore,
    empty: Semaphore,
    full: Semaphore,
    total_produced: u64,
    total_consumed: u64,
}

impl View for ProducerConsumerBuffer {
    type V = BufferView;

    closed spec fn view(&self) -> BufferView {
        BufferView {
            items: self.buffer@.map_values(|s: String| s@),
            capacity: self.capacity,
            mutex: self.mutex@,
            empty: self.empty@,
            full: self.full@,
            total_produced: self.total_produced as nat,
            total_consumed: self.total_consumed as nat,
        }
    }
}

impl ProducerConsumerBuffer {
    /// An empty buffer with room for `capacity` items.
    pub fn new(capacity: usize) -> (buffer: Self)
        ensures
            buffer@ == BufferView::fresh(capacity),
    {
        let buffer = Self {
            buffer: VecDeque::with_capacity(capacity),
            capacity,
            mutex: Semaphore::new(1, "mutex"),
            empty: Semaphore::new(capacity as i32, "empty"),
            full: Semaphore::new(0, "full"),
            total_produced: 0,
            total_consumed: 0,
        };
        assert(buffer@.items =~= Seq::<Seq<char>>::empty());
        buffer
    }

    /// Process `producer_pid` tries to add `item`.
    pub fn produce(&mut self, item: String, producer_pid: u32) -> (result: Result<
        (),
        BufferError,
    >)
        requires
            old(self)@.can_produce(),
        ensures
            (final(self)@, result) == old(self)@.produce(item@, producer_pid),
    {
        if !self.empty.wait(producer_pid) {
            return Err(BufferError::ProducerBlocked);
        }
        if !self.mutex.wait(producer_pid) {
            return Err(BufferError::MutexBlocked);
        }
        if self.buffer.len() >= self.capacity {
            self.mutex.signal();
            self.empty.signal();
            return Err(BufferError::BufferFull);
        }
        self.buffer.push_back(item);
        self.total_produced += 1;
        self.mutex.signal();
        self.full.signal();
        assert(self@.items =~= old(self)@.items.push(item@));
        Ok(())
    }

    /// Process `consumer_pid` tries to take the oldest item.
    pub fn consume(&mut self, consumer_pid: u32) -> (result: Result<String, BufferError>)
        requires
            old(self)@.can_consume(),
        ensures
            final(self)@ == old(self)@.consume(consumer_pid).0,
            match result {
                Ok(item) => old(self)@.consume(consumer_pid).1 == Ok::<Seq<char>, BufferError>(
                    item@,
                ),
                Err(error) => old(self)@.consume(consumer_pid).1 == Err::<Seq<char>, BufferError>(
                    error,
                ),
            },
    {
        if !self.full.wait(consumer_pid) {
            return Err(BufferError::ConsumerBlocked);
        }
        if !self.mutex.wait(consumer_pid) {
            return Err(BufferError::MutexBlocked);
        }
        if let Some(item) = self.buffer.pop_front() {
            self.total_consumed += 1;
            self.mutex.signal();
            self.empty.signal();
            assert(self@.items =~= old(self)@.items.drop_first());
            Ok(item)
        } else {
            self.mutex.signal();
            self.full.signal();
            Err(BufferError::BufferEmpty)
        }
    }

    /// The number of items in the buffer.
    pub fn len(&self) -> (len: usize)
        ensures
            len == self@.items.len(),
    {
        self.buffer.len()
    }

    /// The number of items that the buffer has room for.
    pub fn capacity(&self) -> (capacity: usize)
        ensures
            capacity == self@.capacity,
    {
        self.capacity
    }

    /// Item `index` of the buffer, the oldest being item zero.
    pub fn item(&self, index: usize) -> (item: &String)
        requires
            index < self@.items.len(),
        ensures
            item@ == self@.items[index as int],
    {
        &self.buffer[index]
    }

    /// The number of items added so far.
    pub fn total_produced(&self) -> (total: u64)
        ensures
            total == self@.total_produced,
    {
        self.total_produced
    }

    /// The number of items taken so far.
    pub fn total_consumed(&self) -> (total: u64)
        ensures
            total == self@.total_consumed,
    {
        self.total_consumed
    }

    /// The semaphore that guards the buffer.
    pub fn mutex(&self) -> (semaphore: &Semaphore)
        ensures
            semaphore@ == self@.mutex,
    {
        &self.mutex
    }

    /// The semaphore that counts the free places.
    pub fn empty(&self) -> (semaphore: &Semaphore)
        ensures
            semaphore@ == self@.empty,
    {
        &self.empty
    }

    /// The semaphore that counts the items.
    pub fn full(&self) -> (semaphore: &Semaphore)
        ensures
            semaphore@ == self@.full,
    {
        &self.full
    }
}

} // verus!
