use kernel_sim::modules::mem::paging::{
    Frame, FrameManager, PageTable, PageTableEntry, PagingError, ReplacementPolicy,
};

fn owners(fm: &FrameManager) -> Vec<Option<(u32, usize)>> {
    fm.frames()
        .iter()
        .map(|f: &Frame| match (f.pid, f.page_num) {
            (Some(pid), Some(page)) => Some((pid, page)),
            _ => None,
        })
        .collect()
}

#[test]
fn test_fifo_replacement() {
    let mut fm = FrameManager::new(3);
    fm.create_page_table(1);

    let pages = vec![1, 2, 3, 4, 1, 2, 5];

    for page in pages {
        let _ = fm.access_page_fifo(1, page);
    }

    let stats = fm.stats();
    assert!(stats.page_faults > 0);
    // With three frames, FIFO evicts each of the pages 1, 2 and 3 just
    // before it is referenced again: no reference of this sequence hits.
    assert!(stats.page_hits == 0);
}

#[test]
fn test_lru_replacement() {
    let mut fm = FrameManager::new(3);
    fm.create_page_table(1);

    let pages = vec![1, 2, 3, 4, 1, 2, 5];

    for page in pages {
        let _ = fm.access_page_lru(1, page);
    }

    let stats = fm.stats();
    assert!(stats.page_faults > 0);
}

#[test]
fn fifo_evicts_the_page_that_was_loaded_first() {
    let mut fm = FrameManager::new(3);
    assert_eq!(fm.access_page_fifo(1, 1), Ok(0));
    assert_eq!(fm.access_page_fifo(1, 2), Ok(1));
    assert_eq!(fm.access_page_fifo(1, 3), Ok(2));
    assert_eq!(owners(&fm), vec![Some((1, 1)), Some((1, 2)), Some((1, 3))]);
    // Page 4 takes the frame of page 1.
    assert_eq!(fm.access_page_fifo(1, 4), Ok(0));
    assert_eq!(owners(&fm), vec![Some((1, 4)), Some((1, 2)), Some((1, 3))]);
    let stats = fm.stats();
    assert_eq!(stats.page_faults, 4);
    assert_eq!(stats.page_hits, 0);
    assert_eq!(stats.total_accesses, 4);
    assert_eq!(fm.current_time(), 4);
}

#[test]
fn fifo_goes_by_load_time_not_by_use() {
    let mut fm = FrameManager::new(3);
    for page in [1, 2, 3] {
        fm.access_page_fifo(1, page).unwrap();
    }
    // A hit on page 1 does not save it from eviction.
    assert_eq!(fm.access_page_fifo(1, 1), Ok(0));
    assert_eq!(fm.access_page_fifo(1, 4), Ok(0));
    // The reloaded frame is the youngest now: pages 2 and 3 go next.
    assert_eq!(fm.access_page_fifo(1, 5), Ok(1));
    assert_eq!(fm.access_page_fifo(1, 6), Ok(2));
    assert_eq!(fm.access_page_fifo(1, 7), Ok(0));
}

#[test]
fn lru_evicts_the_page_that_was_used_least_recently() {
    let mut fm = FrameManager::new(3);
    for page in [1, 2, 3, 1, 2] {
        fm.access_page_lru(1, page).unwrap();
    }
    // Page 3 is the least recently used, in frame 2.
    assert_eq!(fm.access_page_lru(1, 4), Ok(2));
    assert_eq!(owners(&fm), vec![Some((1, 1)), Some((1, 2)), Some((1, 4))]);
    let stats = fm.stats();
    assert_eq!(stats.page_faults, 4);
    assert_eq!(stats.page_hits, 2);
}

#[test]
fn same_page_twice_is_one_fault_and_one_hit() {
    let mut fm = FrameManager::new(3);
    assert_eq!(fm.access_page_lru(7, 42), Ok(0));
    assert_eq!(fm.access_page_lru(7, 42), Ok(0));
    let stats = fm.stats();
    assert_eq!(stats.page_faults, 1);
    assert_eq!(stats.page_hits, 1);
    assert_eq!(stats.total_accesses, 2);
    let hit_rate = stats.page_hits as f64 / stats.total_accesses as f64 * 100.0;
    assert_eq!(hit_rate, 50.0);
}

#[test]
fn fresh_manager_has_free_frames_and_no_counts() {
    let fm = FrameManager::new(4);
    assert_eq!(owners(&fm), vec![None, None, None, None]);
    for (i, frame) in fm.frames().iter().enumerate() {
        assert_eq!(frame.frame_num, i);
        assert_eq!(frame.load_time, 0);
    }
    let stats = fm.stats();
    assert_eq!((stats.page_faults, stats.page_hits, stats.total_accesses), (0, 0, 0));
    assert_eq!(fm.current_time(), 0);
}

#[test]
fn frames_record_owner_and_load_time() {
    let mut fm = FrameManager::new(2);
    fm.access_page_lru(3, 10).unwrap();
    fm.access_page_lru(4, 10).unwrap();
    fm.access_page_lru(3, 10).unwrap();
    let frames = fm.frames();
    assert_eq!((frames[0].pid, frames[0].page_num, frames[0].load_time), (Some(3), Some(10), 1));
    assert_eq!((frames[1].pid, frames[1].page_num, frames[1].load_time), (Some(4), Some(10), 2));
    // Process 4 page 10 is the least recently used now.
    assert_eq!(fm.access_page_lru(3, 11), Ok(1));
    assert_eq!(fm.frames()[1].load_time, 4);
}

#[test]
fn eviction_breaks_the_old_mapping() {
    let mut fm = FrameManager::new(1);
    assert_eq!(fm.access_page_lru(1, 5), Ok(0));
    assert_eq!(fm.access_page_lru(2, 6), Ok(0));
    // Page 5 of process 1 is gone: the next reference faults again.
    assert_eq!(fm.access_page_lru(1, 5), Ok(0));
    let stats = fm.stats();
    assert_eq!(stats.page_faults, 3);
    assert_eq!(stats.page_hits, 0);
}

#[test]
fn working_set_evicts_only_pages_outside_the_window() {
    let mut fm = FrameManager::new(2);
    assert_eq!(fm.access_page_working_set(1, 1, 2), Ok(0));
    assert_eq!(fm.access_page_working_set(1, 2, 2), Ok(1));
    // At time 3 both pages were used within the last two units.
    assert_eq!(fm.access_page_working_set(1, 3, 2), Err(PagingError::Thrashing));
    // Nothing has changed: not the time, not the counters, not the frames.
    assert_eq!(fm.current_time(), 2);
    let stats = fm.stats();
    assert_eq!((stats.page_faults, stats.page_hits), (2, 0));
    assert_eq!(owners(&fm), vec![Some((1, 1)), Some((1, 2))]);
    // A hit on page 2 advances the time; then page 1 is outside the window.
    assert_eq!(fm.access_page_working_set(1, 2, 2), Ok(1));
    assert_eq!(fm.access_page_working_set(1, 3, 2), Ok(0));
    assert_eq!(owners(&fm), vec![Some((1, 3)), Some((1, 2))]);
}

#[test]
fn working_set_with_zero_window_is_lru() {
    let mut fm = FrameManager::new(3);
    for page in [1, 2, 3, 1, 2] {
        fm.access_page_working_set(1, page, 0).unwrap();
    }
    assert_eq!(fm.access_page_working_set(1, 4, 0), Ok(2));
}

#[test]
fn access_page_takes_the_policy_as_a_value() {
    let mut fm = FrameManager::new(2);
    assert!(fm.can_access(ReplacementPolicy::Fifo, 1, 1));
    assert_eq!(fm.access_page(ReplacementPolicy::Fifo, 1, 1), Ok(0));
    assert_eq!(fm.access_page(ReplacementPolicy::Lru, 1, 2), Ok(1));
    // Only frame 0 is in the FIFO queue.
    assert!(fm.can_access(ReplacementPolicy::Fifo, 1, 3));
    assert_eq!(fm.access_page(ReplacementPolicy::Fifo, 1, 3), Ok(0));
    assert_eq!(fm.access_page(ReplacementPolicy::WorkingSet(100), 1, 4), Err(PagingError::Thrashing));
    assert_eq!(fm.access_page(ReplacementPolicy::Lru, 1, 4), Ok(1));
}

#[test]
fn fifo_without_queued_frames_is_not_defined() {
    let mut fm = FrameManager::new(1);
    fm.access_page_lru(1, 1).unwrap();
    // The frame is held, and FIFO has queued none.
    assert!(!fm.can_access(ReplacementPolicy::Fifo, 1, 2));
    // A hit needs no eviction.
    assert!(fm.can_access(ReplacementPolicy::Fifo, 1, 1));
    assert!(fm.can_access(ReplacementPolicy::Lru, 1, 2));
}

#[test]
fn create_page_table_keeps_an_existing_table() {
    let mut fm = FrameManager::new(2);
    fm.access_page_lru(1, 1).unwrap();
    fm.create_page_table(1);
    assert_eq!(fm.access_page_lru(1, 1), Ok(0));
    assert_eq!(fm.stats().page_hits, 1);
}

#[test]
fn reset_stats_keeps_the_time() {
    let mut fm = FrameManager::new(2);
    fm.access_page_lru(1, 1).unwrap();
    fm.access_page_lru(1, 1).unwrap();
    fm.reset_stats();
    let stats = fm.stats();
    assert_eq!((stats.page_faults, stats.page_hits, stats.total_accesses), (0, 0, 0));
    assert_eq!(fm.current_time(), 2);
    assert_eq!(fm.access_page_lru(1, 1), Ok(0));
    assert_eq!(fm.stats().page_hits, 1);
}

fn fields(e: PageTableEntry) -> (Option<usize>, bool, u64) {
    (e.frame_number, e.valid, e.last_access)
}

#[test]
fn page_table_access_map_invalidate() {
    let mut table = PageTable::new(9);
    assert_eq!(table.pid, 9);
    assert!(table.entry(5).is_none());
    // A first reference makes an entry that is not valid.
    assert_eq!(table.access(5, 10), None);
    assert_eq!(fields(table.entry(5).unwrap()), (None, false, 10));
    table.map(5, 2, 11);
    assert_eq!(fields(table.entry(5).unwrap()), (Some(2), true, 11));
    assert_eq!(table.access(5, 12), Some(2));
    assert_eq!(fields(table.entry(5).unwrap()), (Some(2), true, 12));
    // Invalidation keeps the time of the last reference.
    table.invalidate(5);
    assert_eq!(fields(table.entry(5).unwrap()), (None, false, 12));
    assert_eq!(table.access(5, 13), None);
    assert_eq!(fields(table.entry(5).unwrap()), (None, false, 13));
    // A page without an entry gets none.
    table.invalidate(6);
    assert!(table.entry(6).is_none());
}

#[test]
fn page_table_lists_the_valid_pages() {
    let mut table = PageTable::new(1);
    table.map(1, 0, 5);
    table.map(2, 1, 6);
    table.map(3, 2, 7);
    table.access(4, 8);
    table.invalidate(2);
    let mut pages = table.valid_pages();
    pages.sort();
    assert_eq!(pages, vec![(1, 0, 5), (3, 2, 7)]);
}
