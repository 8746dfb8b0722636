use kernel_sim::modules::ipc::sync::{BufferError, ProducerConsumerBuffer, Semaphore};
use kernel_sim::modules::ipc::IpcRegistry;

#[test]
fn test_semaphore_basic() {
    let mut sem = Semaphore::new(1, "test");
    assert!(sem.wait(1)); // passes (1 -> 0)
    assert!(!sem.wait(2)); // blocks (0 -> -1)

    let unblocked = sem.signal(); // -1 -> 0, wakes process 2
    assert_eq!(unblocked, Some(2));
}

#[test]
fn test_producer_consumer() {
    let mut buffer = ProducerConsumerBuffer::new(2);

    // Two items fill the buffer.
    assert!(buffer.produce("Item1".to_string(), 100).is_ok());
    assert!(buffer.produce("Item2".to_string(), 100).is_ok());

    let item = buffer.consume(200).unwrap();
    assert_eq!(item, "Item1");

    // There is room again.
    assert!(buffer.produce("Item3".to_string(), 100).is_ok());

    assert_eq!(buffer.total_produced(), 3);
    assert_eq!(buffer.total_consumed(), 1);
}

#[test]
fn semaphore_counts_and_queues() {
    let mut sem = Semaphore::new(2, "s");
    assert_eq!(sem.name(), "s");
    assert_eq!((sem.count(), sem.waiting_count()), (2, 0));
    assert!(sem.wait(1));
    assert!(sem.wait(2));
    assert_eq!((sem.count(), sem.waiting_count()), (0, 0));
    assert!(!sem.wait(3));
    assert!(!sem.wait(4));
    assert_eq!((sem.count(), sem.waiting_count()), (-2, 2));
    // The one that has waited longest wakes first.
    assert_eq!(sem.signal(), Some(3));
    assert_eq!((sem.count(), sem.waiting_count()), (-1, 1));
    assert_eq!(sem.signal(), Some(4));
    assert_eq!((sem.count(), sem.waiting_count()), (0, 0));
    assert_eq!(sem.signal(), None);
    assert_eq!(sem.count(), 1);
}

#[test]
fn signal_without_waiters_wakes_nobody() {
    let mut sem = Semaphore::new(-1, "odd");
    // The count says that one process waits, but the queue is empty.
    assert_eq!(sem.signal(), None);
    assert_eq!(sem.count(), 0);
}

#[test]
fn fresh_buffer() {
    let buffer = ProducerConsumerBuffer::new(5);
    assert_eq!(buffer.len(), 0);
    assert_eq!(buffer.capacity(), 5);
    assert_eq!(buffer.total_produced(), 0);
    assert_eq!(buffer.total_consumed(), 0);
    assert_eq!((buffer.mutex().count(), buffer.mutex().name().as_str()), (1, "mutex"));
    assert_eq!((buffer.empty().count(), buffer.empty().name().as_str()), (5, "empty"));
    assert_eq!((buffer.full().count(), buffer.full().name().as_str()), (0, "full"));
}

#[test]
fn producer_blocks_on_a_full_buffer() {
    let mut buffer = ProducerConsumerBuffer::new(1);
    assert_eq!(buffer.produce("a".to_string(), 1), Ok(()));
    assert_eq!(buffer.produce("b".to_string(), 2), Err(BufferError::ProducerBlocked));
    assert_eq!(buffer.len(), 1);
    assert_eq!(buffer.item(0), "a");
    assert_eq!(buffer.total_produced(), 1);
    // The producer waits in the queue of the semaphore.
    assert_eq!((buffer.empty().count(), buffer.empty().waiting_count()), (-1, 1));
    assert_eq!((buffer.mutex().count(), buffer.full().count()), (1, 1));
    // The consumer wakes it, but the place it waited for is not kept.
    assert_eq!(buffer.consume(3).unwrap(), "a");
    assert_eq!((buffer.empty().count(), buffer.empty().waiting_count()), (0, 0));
    assert_eq!(buffer.produce("c".to_string(), 2), Err(BufferError::ProducerBlocked));
}

#[test]
fn consumer_blocks_on_an_empty_buffer() {
    let mut buffer = ProducerConsumerBuffer::new(2);
    assert_eq!(buffer.consume(9), Err(BufferError::ConsumerBlocked));
    assert_eq!((buffer.full().count(), buffer.full().waiting_count()), (-1, 1));
    assert_eq!(buffer.total_consumed(), 0);
    // The producer wakes the consumer; the count is back at zero.
    assert_eq!(buffer.produce("x".to_string(), 1), Ok(()));
    assert_eq!((buffer.full().count(), buffer.full().waiting_count()), (0, 0));
    assert_eq!(buffer.consume(9), Err(BufferError::ConsumerBlocked));
    assert_eq!(buffer.len(), 1);
}

#[test]
fn items_leave_in_the_order_of_arrival() {
    let mut buffer = ProducerConsumerBuffer::new(3);
    for item in ["one", "two", "three"] {
        buffer.produce(item.to_string(), 1).unwrap();
    }
    assert_eq!((buffer.empty().count(), buffer.full().count()), (0, 3));
    assert_eq!(buffer.consume(2).unwrap(), "one");
    assert_eq!(buffer.consume(2).unwrap(), "two");
    assert_eq!(buffer.item(0), "three");
    assert_eq!(buffer.consume(2).unwrap(), "three");
    assert_eq!((buffer.empty().count(), buffer.full().count()), (3, 0));
    assert_eq!(buffer.mutex().count(), 1);
}

#[test]
fn buffer_without_room_never_accepts() {
    let mut buffer = ProducerConsumerBuffer::new(0);
    assert_eq!(buffer.produce("a".to_string(), 1), Err(BufferError::ProducerBlocked));
    assert_eq!(buffer.len(), 0);
}

#[test]
fn registry_keeps_semaphores_by_name() {
    let mut registry = IpcRegistry::new();
    assert!(registry.get_semaphore("a").is_none());
    registry.create_semaphore("a".to_string(), 1);
    registry.create_semaphore("b".to_string(), 5);
    {
        let a = registry.get_semaphore("a").unwrap();
        assert_eq!((a.count(), a.name().as_str()), (1, "a"));
        assert!(a.wait(7));
        assert!(!a.wait(8));
    }
    // What was done to the semaphore is kept.
    assert_eq!(registry.get_semaphore("a").unwrap().count(), -1);
    assert_eq!(registry.get_semaphore("a").unwrap().signal(), Some(8));
    assert_eq!(registry.get_semaphore("b").unwrap().count(), 5);
    assert!(registry.get_semaphore("c").is_none());
    // A second semaphore of the same name takes the place of the first.
    registry.create_semaphore("a".to_string(), 3);
    assert_eq!(registry.get_semaphore("a").unwrap().count(), 3);
    assert_eq!(registry.get_semaphore("a").unwrap().waiting_count(), 0);
    assert_eq!(registry.get_semaphore("b").unwrap().count(), 5);
}
