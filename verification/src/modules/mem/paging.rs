//! Paged memory: per-process page tables over a fixed pool of physical
//! frames, with FIFO, least-recently-used and working-set replacement.
use vstd::prelude::*;
use std::collections::HashMap;
use std::collections::VecDeque;
use vstd::std_specs::hash::spec_keys_iter;
use vstd::std_specs::iter::IteratorSpec;

verus! {

broadcast use vstd::std_specs::hash::group_hash_axioms;

/// Entry of a page table.
#[derive(Debug, Clone, Copy)]
pub struct PageTableEntry {
    /// The frame that holds the page; `None` while the page is not in memory.
    pub frame_number: Option<usize>,
    pub valid: bool,
    /// Time of the last reference to the page.
    pub last_access: u64,
}

impl PageTableEntry {
    /// The entry of a page that was referenced at `time` and is not in memory.
    pub open spec fn absent(time: u64) -> PageTableEntry {
        PageTableEntry { frame_number: None, valid: false, last_access: time }
    }

    /// The entry of a page that was loaded into `frame` at `time`.
    pub open spec fn present(frame: usize, time: u64) -> PageTableEntry {
        PageTableEntry { frame_number: Some(frame), valid: true, last_access: time }
    }

    /// This entry once its page has left memory; the time of the last
    /// reference stays.
    pub open spec fn invalidated(self) -> PageTableEntry {
        PageTableEntry { frame_number: None, valid: false, last_access: self.last_access }
    }

    /// This entry after a reference at `time`.
    pub open spec fn touched(self, time: u64) -> PageTableEntry {
        PageTableEntry { last_access: time, ..self }
    }
}

/// The page table of one process: page number to entry.
#[derive(Debug)]
pub struct PageTable {
    pub pid: u32,
    entries: HashMap<usize, PageTableEntry>,
}

impl View for PageTable {
    type V = Map<usize, PageTableEntry>;

    closed spec fn view(&self) -> Map<usize, PageTableEntry> {
        self.entries@
    }
}

/// What a reference to `page` at `time` does to a table.
pub open spec fn table_touched(
    table: Map<usize, PageTableEntry>,
    page: usize,
    time: u64,
) -> Map<usize, PageTableEntry> {
    table.insert(
        page,
        if table.contains_key(page) {
            table[page].touched(time)
        } else {
            PageTableEntry::absent(time)
        },
    )
}

/// What the loss of its frame does to the entry of `page` in a table.
pub open spec fn table_invalidated(
    table: Map<usize, PageTableEntry>,
    page: usize,
) -> Map<usize, PageTableEntry> {
    if table.contains_key(page) {
        table.insert(page, table[page].invalidated())
    } else {
        table
    }
}

/// Whether every valid entry of a table names a frame.
pub open spec fn table_wf(table: Map<usize, PageTableEntry>) -> bool {
    forall|page: usize| #[trigger]
        table.contains_key(page) ==> (table[page].valid ==> table[page].frame_number is Some)
}

/// Whether `listed` is a page of `table` that is in memory, with its frame
/// and the time of its last reference.
pub open spec fn lists(table: Map<usize, PageTableEntry>, listed: (usize, usize, u64)) -> bool {
    &&& table.contains_key(listed.0)
    &&& table[listed.0].valid
    &&& table[listed.0].frame_number == Some(listed.1)
    &&& table[listed.0].last_access == listed.2
}

/// The pages among `pages` that are in memory, in the order of `pages`,
/// each with its frame and the time of its last reference.
pub open spec fn collected(table: Map<usize, PageTableEntry>, pages: Seq<usize>) -> Seq<
    (usize, usize, u64),
>
    decreases pages.len(),
{
    if pages.len() == 0 {
        Seq::empty()
    } else {
        let rest = collected(table, pages.drop_last());
        let page = pages.last();
        if table[page].valid && table[page].frame_number is Some {
            rest.push((page, table[page].frame_number->0, table[page].last_access))
        } else {
            rest
        }
    }
}

/// What is collected from distinct pages of a table lists each of them that
/// is in memory, once, and nothing else.
pub proof fn lemma_collected(table: Map<usize, PageTableEntry>, pages: Seq<usize>)
    requires
        table_wf(table),
        pages.no_duplicates(),
        forall|k: int| 0 <= k < pages.len() ==> table.contains_key(#[trigger] pages[k]),
    ensures
        forall|i: int|
            0 <= i < collected(table, pages).len() ==> lists(
                table,
                #[trigger] collected(table, pages)[i],
            ) && pages.contains(collected(table, pages)[i].0),
        forall|k: int|
            0 <= k < pages.len() && table[#[trigger] pages[k]].valid ==> exists|i: int|
                0 <= i < collected(table, pages).len() && (#[trigger] collected(
                    table,
                    pages,
                )[i]).0 == pages[k],
        forall|i: int, j: int|
            0 <= i < j < collected(table, pages).len() ==> (#[trigger] collected(
                table,
                pages,
            )[i]).0 != (#[trigger] collected(table, pages)[j]).0,
    decreases pages.len(),
{
    if pages.len() > 0 {
        let front = pages.drop_last();
        let page = pages.last();
        let rest = collected(table, front);
        let all = collected(table, pages);
        assert forall|k: int| 0 <= k < front.len() implies table.contains_key(
            #[trigger] front[k],
        ) by {
            assert(front[k] == pages[k]);
        }
        lemma_collected(table, front);
        assert(table.contains_key(pages[pages.len() - 1]));
        assert forall|i: int| 0 <= i < all.len() implies lists(table, #[trigger] all[i])
            && pages.contains(all[i].0) by {
            if i < rest.len() {
                assert(all[i] == rest[i]);
                let k = choose|k: int| 0 <= k < front.len() && front[k] == rest[i].0;
                assert(pages[k] == front[k]);
            } else {
                assert(pages[pages.len() - 1] == page);
            }
        }
        assert forall|k: int| 0 <= k < pages.len() && table[#[trigger] pages[k]].valid implies exists|
            i: int,
        |
            0 <= i < all.len() && (#[trigger] all[i]).0 == pages[k] by {
            if k < front.len() {
                assert(front[k] == pages[k]);
                let i = choose|i: int| 0 <= i < rest.len() && (#[trigger] rest[i]).0 == front[k];
                assert(all[i] == rest[i]);
            } else {
                assert(all[all.len() - 1].0 == page);
            }
        }
        assert forall|i: int, j: int| 0 <= i < j < all.len() implies (#[trigger] all[i]).0 != (
        #[trigger] all[j]).0 by {
            assert(all[i] == rest[i]);
            if j < rest.len() {
                assert(all[j] == rest[j]);
            } else {
                let k = choose|k: int| 0 <= k < front.len() && front[k] == rest[i].0;
                assert(pages[k] == front[k]);
            }
        }
    }
}

impl PageTable {
    /// The process that the table belongs to.
    pub closed spec fn owner(&self) -> u32 {
        self.pid
    }

    /// Whether every valid entry names a frame.
    pub open spec fn wf(&self) -> bool {
        table_wf(self@)
    }

    /// The empty page table of process `pid`.
    pub fn new(pid: u32) -> (table: Self)
        ensures
            table.owner() == pid,
            table@ == Map::<usize, PageTableEntry>::empty(),
            table.wf(),
    {
        Self { pid, entries: HashMap::new() }
    }

    /// Records a reference to `page_num` at `time`. Returns the frame of the
    /// page where it is in memory. A page that was never referenced gets an
    /// entry that is not valid.
    pub fn access(&mut self, page_num: usize, time: u64) -> (frame: Option<usize>)
        ensures
            final(self).owner() == old(self).owner(),
            final(self)@ == table_touched(old(self)@, page_num, time),
            frame == (if old(self)@.contains_key(page_num) && old(self)@[page_num].valid {
                old(self)@[page_num].frame_number
            } else {
                None
            }),
            old(self).wf() ==> final(self).wf(),
    {
        let found: Option<PageTableEntry> = match self.entries.get(&page_num) {
            Some(entry) => Some(*entry),
            None => None,
        };
        match found {
            Some(entry) => {
                self.entries.insert(
                    page_num,
                    PageTableEntry {
                        frame_number: entry.frame_number,
                        valid: entry.valid,
                        last_access: time,
                    },
                );
                if entry.valid {
                    return entry.frame_number;
                }
            },
            None => {
                self.entries.insert(
                    page_num,
                    PageTableEntry { frame_number: None, valid: false, last_access: time },
                );
            },
        }
        None
    }

    /// Binds `page_num` to `frame_num`, as loaded and referenced at `time`.
    pub fn map(&mut self, page_num: usize, frame_num: usize, time: u64)
        ensures
            final(self).owner() == old(self).owner(),
            final(self)@ == old(self)@.insert(page_num, PageTableEntry::present(frame_num, time)),
            old(self).wf() ==> final(self).wf(),
    {
        self.entries.insert(
            page_num,
            PageTableEntry { frame_number: Some(frame_num), valid: true, last_access: time },
        );
    }

    /// Marks `page_num` as no longer in memory. The time of its last
    /// reference stays; a page without an entry gets none.
    pub fn invalidate(&mut self, page_num: usize)
        ensures
            final(self).owner() == old(self).owner(),
            final(self)@ == table_invalidated(old(self)@, page_num),
            old(self).wf() ==> final(self).wf(),
    {
        let found: Option<PageTableEntry> = match self.entries.get(&page_num) {
            Some(entry) => Some(*entry),
            None => None,
        };
        if let Some(entry) = found {
            self.entries.insert(
                page_num,
                PageTableEntry { frame_number: None, valid: false, last_access: entry.last_access },
            );
        }
    }

    /// The pages that are in memory, in no particular order, each with its
    /// frame and the time of its last reference.
    pub fn valid_pages(&self) -> (pages: Vec<(usize, usize, u64)>)
        requires
            self.wf(),
        ensures
            forall|i: int| 0 <= i < pages@.len() ==> lists(self@, #[trigger] pages@[i]),
            forall|page: usize|
                self@.contains_key(page) && self@[page].valid ==> exists|i: int|
                    0 <= i < pages@.len() && (#[trigger] pages@[i]).0 == page,
            forall|i: int, j: int|
                0 <= i < j < pages@.len() ==> (#[trigger] pages@[i]).0 != (#[trigger] pages@[j]).0,
    {
        let mut pages: Vec<(usize, usize, u64)> = Vec::new();
        let ghost all: Seq<usize> = spec_keys_iter(&self.entries).remaining().unref();
        for page in it: self.entries.keys()
            invariant
                self.wf(),
                all == it.seq().unref(),
                all.to_set() == self@.dom(),
                all.no_duplicates(),
                pages@ == collected(self@, all.take(it.index() as int)),
        {
            proof {
                let next = all.take(it.index() + 1);
                assert(next.drop_last() =~= all.take(it.index() as int));
                assert(next.last() == *page);
                assert(all.to_set().contains(all[it.index() as int]));
            }
            let found: Option<PageTableEntry> = match self.entries.get(page) {
                Some(entry) => Some(*entry),
                None => None,
            };
            if let Some(entry) = found {
                if entry.valid {
                    if let Some(frame) = entry.frame_number {
                        pages.push((*page, frame, entry.last_access));
                    }
                }
            }
        }
        proof {
            assert(all.take(all.len() as int) =~= all);
            lemma_collected(self@, all);
            assert forall|page: usize| self@.contains_key(page) && self@[page].valid implies exists|
                i: int,
            |
                0 <= i < pages@.len() && (#[trigger] pages@[i]).0 == page by {
                assert(all.to_set().contains(page));
            }
        }
        pages
    }

    /// The entry of `page_num`, if the page was ever referenced.
    pub fn entry(&self, page_num: usize) -> (entry: Option<PageTableEntry>)
        ensures
            entry == (if self@.contains_key(page_num) {
                Some(self@[page_num])
            } else {
                None
            }),
    {
        match self.entries.get(&page_num) {
            Some(entry) => Some(*entry),
            None => None,
        }
    }
}

/// A physical frame.
#[derive(Debug, Clone, Copy)]
pub struct Frame {
    pub frame_num: usize,
    /// The process whose page the frame holds; `None` while the frame is free.
    pub pid: Option<u32>,
    /// The page that the frame holds; `None` while the frame is free.
    pub page_num: Option<usize>,
    /// Time at which the page was loaded.
    pub load_time: u64,
}

impl Frame {
    /// Frame `frame_num` while it holds no page.
    pub open spec fn vacant(frame_num: usize) -> Frame {
        Frame { frame_num, pid: None, page_num: None, load_time: 0 }
    }

    /// Frame `frame_num` holding `page_num` of `pid`, loaded at `time`.
    pub open spec fn holding(frame_num: usize, pid: u32, page_num: usize, time: u64) -> Frame {
        Frame { frame_num, pid: Some(pid), page_num: Some(page_num), load_time: time }
    }
}

/// How the frame to reuse is chosen when no frame is free.
#[derive(Debug, Clone, Copy, PartialEq, Eq, Structural)]
pub enum ReplacementPolicy {
    /// The frame that was loaded first.
    Fifo,
    /// The frame whose page was referenced least recently.
    Lru,
    /// The least recently referenced among the frames whose page was last
    /// referenced more than the given number of time units ago.
    WorkingSet(u64),
}

/// Why a page reference could not be resolved.
#[derive(Debug, Clone, Copy, PartialEq, Eq, Structural)]
pub enum PagingError {
    /// Every frame holds a page of the working set: none may be evicted.
    Thrashing,
}

/// Counters of a frame manager.
#[derive(Debug, Clone, Copy)]
pub struct MemoryStats {
    pub page_faults: u64,
    pub page_hits: u64,
    pub total_accesses: u64,
}

/// The mathematical value of a [`FrameManager`].
pub struct FrameManagerView {
    pub frames: Seq<Frame>,
    /// Frames in the order in which FIFO references loaded them, oldest first.
    pub fifo_queue: Seq<usize>,
    /// The page table of each process that has one.
    pub page_tables: Map<u32, Map<usize, PageTableEntry>>,
    pub page_faults: nat,
    pub page_hits: nat,
    pub current_time: nat,
}

impl FrameManagerView {
    /// A pool of `total_frames` free frames at time zero, without page tables.
    pub open spec fn initial(total_frames: usize) -> FrameManagerView {
        FrameManagerView {
            frames: Seq::new(total_frames as nat, |i: int| Frame::vacant(i as usize)),
            fifo_queue: Seq::empty(),
            page_tables: Map::empty(),
            page_faults: 0,
            page_hits: 0,
            current_time: 0,
        }
    }

    /// The page table of `pid`; empty where the process has none.
    pub open spec fn table(self, pid: u32) -> Map<usize, PageTableEntry> {
        if self.page_tables.contains_key(pid) {
            self.page_tables[pid]
        } else {
            Map::empty()
        }
    }

    /// Whether page `page` of `pid` is in memory.
    pub open spec fn resident(self, pid: u32, page: usize) -> bool {
        self.table(pid).contains_key(page) && self.table(pid)[page].valid
    }

    /// Whether frame `f` holds page `page` of `pid`.
    pub open spec fn holds(self, f: int, pid: u32, page: usize) -> bool {
        &&& 0 <= f < self.frames.len()
        &&& self.frames[f].pid == Some(pid)
        &&& self.frames[f].page_num == Some(page)
    }

    /// Whether frame `f` is free.
    pub open spec fn is_free(self, f: int) -> bool {
        0 <= f < self.frames.len() && self.frames[f].pid is None
    }

    /// Whether some frame is free.
    pub open spec fn has_free_frame(self) -> bool {
        exists|f: int| self.is_free(f)
    }

    /// Whether `f` is the free frame with the least number.
    pub open spec fn is_first_free(self, f: int) -> bool {
        self.is_free(f) && forall|g: int| 0 <= g < f ==> !self.is_free(g)
    }

    /// The free frame with the least number.
    pub open spec fn first_free(self) -> int {
        choose|f: int| self.is_first_free(f)
    }

    /// Time of the last reference to the page that frame `f` holds.
    pub open spec fn last_used(self, f: int) -> u64 {
        self.page_tables[self.frames[f].pid->0][self.frames[f].page_num->0].last_access
    }

    /// Whether `policy` allows frame `f` to be reused at time `now`.
    pub open spec fn evictable(self, policy: ReplacementPolicy, now: int, f: int) -> bool {
        &&& 0 <= f < self.frames.len()
        &&& match policy {
            ReplacementPolicy::WorkingSet(window) => now - self.last_used(f) > window,
            _ => true,
        }
    }

    /// Whether `policy` picks frame `v` for reuse at time `now`: under FIFO
    /// the head of the queue; otherwise the evictable frame whose page was
    /// referenced least recently, and among several of these the one with the
    /// least number.
    pub open spec fn is_victim(self, policy: ReplacementPolicy, now: int, v: int) -> bool {
        match policy {
            ReplacementPolicy::Fifo => self.fifo_queue.len() > 0 && v == self.fifo_queue[0],
            _ => {
                &&& self.evictable(policy, now, v)
                &&& forall|f: int| #[trigger]
                    self.evictable(policy, now, f) ==> self.last_used(v) < self.last_used(f) || (
                    self.last_used(v) == self.last_used(f) && v <= f)
            },
        }
    }

    /// Whether `policy` finds a frame for reuse at time `now`.
    pub open spec fn has_victim(self, policy: ReplacementPolicy, now: int) -> bool {
        exists|v: int| self.is_victim(policy, now, v)
    }

    /// The frame that `policy` picks for reuse at time `now`.
    pub open spec fn victim(self, policy: ReplacementPolicy, now: int) -> int {
        choose|v: int| self.is_victim(policy, now, v)
    }

    /// This state with an empty page table for `pid`, unless it has one.
    pub open spec fn with_table(self, pid: u32) -> FrameManagerView {
        FrameManagerView { page_tables: self.page_tables.insert(pid, self.table(pid)), ..self }
    }

    /// This state after a reference to page `page` of `pid` at time `now`
    /// was noted in the page table.
    pub open spec fn touched(self, pid: u32, page: usize, now: u64) -> FrameManagerView {
        FrameManagerView {
            page_tables: self.page_tables.insert(
                pid,
                table_touched(self.table(pid), page, now),
            ),
            ..self
        }
    }

    /// This state after the page that frame `f` holds was marked as no
    /// longer in memory.
    pub open spec fn unmapped(self, f: int) -> FrameManagerView {
        let pid = self.frames[f].pid->0;
        let page = self.frames[f].page_num->0;
        FrameManagerView {
            page_tables: self.page_tables.insert(
                pid,
                table_invalidated(self.table(pid), page),
            ),
            ..self
        }
    }

    /// This state after page `page` of `pid` was loaded into frame `f` at
    /// time `now`.
    pub open spec fn mapped(self, f: int, pid: u32, page: usize, now: u64) -> FrameManagerView {
        FrameManagerView {
            frames: self.frames.update(f, Frame::holding(f as usize, pid, page, now)),
            page_tables: self.page_tables.insert(
                pid,
                self.table(pid).insert(page, PageTableEntry::present(f as usize, now)),
            ),
            ..self
        }
    }

    /// This state with frame `f` at the back of the FIFO queue, where
    /// `policy` is FIFO.
    pub open spec fn queued(self, policy: ReplacementPolicy, f: int) -> FrameManagerView {
        if policy == ReplacementPolicy::Fifo {
            FrameManagerView { fifo_queue: self.fifo_queue.push(f as usize), ..self }
        } else {
            self
        }
    }

    /// This state without the head of the FIFO queue, where `policy` is FIFO.
    pub open spec fn dequeued(self, policy: ReplacementPolicy) -> FrameManagerView {
        if policy == ReplacementPolicy::Fifo {
            FrameManagerView { fifo_queue: self.fifo_queue.drop_first(), ..self }
        } else {
            self
        }
    }

    /// Whether a reference to page `page` of `pid` under `policy` is
    /// defined: a FIFO reference that has to evict needs a frame in the queue.
    pub open spec fn can_access(self, policy: ReplacementPolicy, pid: u32, page: usize) -> bool {
        policy == ReplacementPolicy::Fifo && !self.resident(pid, page) && !self.has_free_frame()
            ==> self.fifo_queue.len() > 0
    }

    /// The state after a reference to page `page` of `pid` under `policy`,
    /// and the frame that holds the page then. A page in memory is a hit.
    /// Otherwise the page is loaded into the first free frame or, where none
    /// is free, into the frame that `policy` picks, whose page leaves memory.
    /// Where `policy` picks none, nothing changes.
    pub open spec fn access_page(self, policy: ReplacementPolicy, pid: u32, page: usize) -> (
        FrameManagerView,
        Result<usize, PagingError>,
    ) {
        let now = (self.current_time + 1) as u64;
        if self.resident(pid, page) {
            (
                FrameManagerView {
                    current_time: self.current_time + 1,
                    page_hits: self.page_hits + 1,
                    ..self.touched(pid, page, now)
                },
                Ok(self.table(pid)[page].frame_number->0),
            )
        } else if self.has_free_frame() {
            let f = self.first_free();
            (
                FrameManagerView {
                    current_time: self.current_time + 1,
                    page_faults: self.page_faults + 1,
                    ..self.mapped(f, pid, page, now).queued(policy, f)
                },
                Ok(f as usize),
            )
        } else if !self.has_victim(policy, now as int) {
            (self, Err(PagingError::Thrashing))
        } else {
            let v = self.victim(policy, now as int);
            (
                FrameManagerView {
                    current_time: self.current_time + 1,
                    page_faults: self.page_faults + 1,
                    ..self.dequeued(policy).unmapped(v).mapped(v, pid, page, now).queued(policy, v)
                },
                Ok(v as usize),
            )
        }
    }

    /// Whether the entry of page `page` of `pid` is consistent: it is valid
    /// exactly if it names a frame, that frame holds the page, and the page
    /// was not referenced in the future.
    pub open spec fn entry_ok(self, pid: u32, page: usize) -> bool {
        let entry = self.page_tables[pid][page];
        &&& entry.valid <==> entry.frame_number is Some
        &&& entry.last_access <= self.current_time
        &&& entry.valid ==> self.holds(entry.frame_number->0 as int, pid, page)
    }

    /// Whether frame `f` is consistent: it carries its own number, it has
    /// an owning process exactly if it has a page, and the owner's page table
    /// has a valid entry for the page that names this frame.
    pub open spec fn frame_ok(self, f: int) -> bool {
        let frame = self.frames[f];
        &&& frame.frame_num == f
        &&& frame.pid is Some <==> frame.page_num is Some
        &&& frame.load_time <= self.current_time
        &&& frame.pid is Some ==> {
            &&& self.resident(frame.pid->0, frame.page_num->0)
            &&& self.table(frame.pid->0)[frame.page_num->0].frame_number == Some(f as usize)
        }
    }

    /// The invariant of a frame manager: there is a frame; frames and page
    /// table entries refer to each other consistently; the queue holds frame
    /// numbers; and no more references were counted than were made.
    pub open spec fn valid(self) -> bool {
        &&& 1 <= self.frames.len() <= usize::MAX
        &&& forall|f: int| 0 <= f < self.frames.len() ==> #[trigger] self.frame_ok(f)
        &&& forall|pid: u32, page: usize|
            self.page_tables.contains_key(pid) && #[trigger] self.page_tables[pid].contains_key(
                page,
            ) ==> self.entry_ok(pid, page)
        &&& forall|k: int|
            0 <= k < self.fifo_queue.len() ==> 0 <= #[trigger] self.fifo_queue[k]
                < self.frames.len()
        &&& self.page_hits + self.page_faults <= self.current_time
    }

    /// The counters of this state.
    pub open spec fn stats(self) -> MemoryStats {
        MemoryStats {
            page_faults: self.page_faults as u64,
            page_hits: self.page_hits as u64,
            total_accesses: (self.page_hits + self.page_faults) as u64,
        }
    }
}

impl FrameManagerView {
    /// The invariant but for frame `f`, which is about to be loaded: the
    /// frame may be inconsistent, and no valid entry names it.
    pub open spec fn valid_but(self, f: int) -> bool {
        &&& 0 <= f < self.frames.len() <= usize::MAX
        &&& forall|g: int| 0 <= g < self.frames.len() && g != f ==> #[trigger] self.frame_ok(g)
        &&& forall|pid: u32, page: usize|
            self.page_tables.contains_key(pid) && #[trigger] self.page_tables[pid].contains_key(
                page,
            ) ==> self.entry_ok(pid, page) && self.page_tables[pid][page].frame_number != Some(
                f as usize,
            )
        &&& forall|k: int|
            0 <= k < self.fifo_queue.len() ==> 0 <= #[trigger] self.fifo_queue[k]
                < self.frames.len()
        &&& self.page_hits + self.page_faults <= self.current_time
    }
}

/// A free frame is named by no entry.
pub proof fn lemma_free_frame_unnamed(v: FrameManagerView, f: int)
    requires
        v.valid(),
        v.is_free(f),
    ensures
        v.valid_but(f),
{
    assert forall|pid: u32, page: usize|
        v.page_tables.contains_key(pid) && #[trigger] v.page_tables[pid].contains_key(
            page,
        ) implies v.entry_ok(pid, page) && v.page_tables[pid][page].frame_number != Some(
        f as usize,
    ) by {
        assert(v.entry_ok(pid, page));
    }
}

/// Once the page of a frame has been marked as no longer in memory, no
/// entry names the frame, and everything else is still consistent.
pub proof fn lemma_unmapped(v: FrameManagerView, f: int)
    requires
        v.valid(),
        0 <= f < v.frames.len(),
        v.frames[f].pid is Some,
    ensures
        v.unmapped(f).valid_but(f),
        forall|pid: u32, page: usize|
            !v.resident(pid, page) ==> !(#[trigger] v.unmapped(f).resident(pid, page)),
{
    let u = v.unmapped(f);
    let owner = v.frames[f].pid->0;
    let owned = v.frames[f].page_num->0;
    assert(v.frame_ok(f));
    assert(v.entry_ok(owner, owned));
    assert forall|g: int| 0 <= g < u.frames.len() && g != f implies #[trigger] u.frame_ok(g) by {
        assert(v.frame_ok(g));
    }
    assert forall|pid: u32, page: usize|
        u.page_tables.contains_key(pid) && #[trigger] u.page_tables[pid].contains_key(
            page,
        ) implies u.entry_ok(pid, page) && u.page_tables[pid][page].frame_number != Some(
        f as usize,
    ) by {
        assert(v.page_tables.contains_key(pid) && v.page_tables[pid].contains_key(page));
        assert(v.entry_ok(pid, page));
    }
}

/// Loading a page that is not in memory into a frame that no entry names
/// restores the invariant.
pub proof fn lemma_mapped(v: FrameManagerView, f: int, pid: u32, page: usize)
    requires
        v.valid_but(f),
        !v.resident(pid, page),
        v.current_time < u64::MAX,
    ensures
        (FrameManagerView {
            current_time: v.current_time + 1,
            page_faults: v.page_faults + 1,
            ..v.mapped(f, pid, page, (v.current_time + 1) as u64)
        }).valid(),
{
    let now = (v.current_time + 1) as u64;
    let m = FrameManagerView {
        current_time: v.current_time + 1,
        page_faults: v.page_faults + 1,
        ..v.mapped(f, pid, page, now)
    };
    assert forall|g: int| 0 <= g < m.frames.len() implies #[trigger] m.frame_ok(g) by {
        if g != f {
            assert(v.frame_ok(g));
        }
    }
    assert forall|p: u32, q: usize|
        m.page_tables.contains_key(p) && #[trigger] m.page_tables[p].contains_key(
            q,
        ) implies m.entry_ok(p, q) by {
        if !(p == pid && q == page) {
            assert(v.page_tables.contains_key(p) && v.page_tables[p].contains_key(q));
            assert(v.entry_ok(p, q));
        }
    }
}

/// Under a policy other than the working set, some frame can always be
/// reused once the FIFO queue is not empty.
pub proof fn lemma_has_victim(v: FrameManagerView, policy: ReplacementPolicy, now: int)
    requires
        v.valid(),
        policy == ReplacementPolicy::Lru || (policy == ReplacementPolicy::Fifo
            && v.fifo_queue.len() > 0),
    ensures
        v.has_victim(policy, now),
{
    if policy == ReplacementPolicy::Fifo {
        assert(v.is_victim(policy, now, v.fifo_queue[0] as int));
    } else {
        let bound = v.frames.len() as int;
        lemma_least_recent(v, policy, now, bound);
        assert(v.evictable(policy, now, 0));
        let w = choose|w: int| v.is_least_recent_below(policy, now, bound, w);
        assert(v.evictable(policy, now, 0));
        assert(v.is_victim(policy, now, w));
    }
}

impl FrameManagerView {
    /// Whether `w` is the frame that the policy would pick among the frames
    /// below `bound`.
    pub open spec fn is_least_recent_below(
        self,
        policy: ReplacementPolicy,
        now: int,
        bound: int,
        w: int,
    ) -> bool {
        &&& 0 <= w < bound
        &&& self.evictable(policy, now, w)
        &&& forall|f: int|
            0 <= f < bound && #[trigger] self.evictable(policy, now, f) ==> self.last_used(w)
                < self.last_used(f) || (self.last_used(w) == self.last_used(f) && w <= f)
    }
}

/// Where a frame below `bound` is evictable, one of them is the least
/// recently used.
pub proof fn lemma_least_recent(v: FrameManagerView, policy: ReplacementPolicy, now: int, bound: int)
    requires
        0 <= bound <= v.frames.len(),
    ensures
        (exists|f: int| 0 <= f < bound && v.evictable(policy, now, f)) ==> exists|w: int|
            v.is_least_recent_below(policy, now, bound, w),
    decreases bound,
{
    if bound > 0 {
        let last = bound - 1;
        lemma_least_recent(v, policy, now, last);
        if exists|f: int| 0 <= f < last && v.evictable(policy, now, f) {
            let w = choose|w: int| v.is_least_recent_below(policy, now, last, w);
            if v.evictable(policy, now, last) && v.last_used(last) < v.last_used(w) {
                assert(v.is_least_recent_below(policy, now, bound, last));
            } else {
                assert(v.is_least_recent_below(policy, now, bound, w));
            }
        } else if v.evictable(policy, now, last) {
            assert(v.is_least_recent_below(policy, now, bound, last));
        }
    }
}

/// A page reference keeps the invariant, whether it is resolved or not.
pub proof fn lemma_access_page_valid(
    v: FrameManagerView,
    policy: ReplacementPolicy,
    pid: u32,
    page: usize,
)
    requires
        v.valid(),
        v.current_time < u64::MAX,
        v.can_access(policy, pid, page),
    ensures
        v.access_page(policy, pid, page).0.valid(),
{
    let now = (v.current_time + 1) as u64;
    let after = v.access_page(policy, pid, page).0;
    if v.resident(pid, page) {
        assert forall|f: int| 0 <= f < after.frames.len() implies #[trigger] after.frame_ok(f) by {
            assert(v.frame_ok(f));
        }
        assert forall|p: u32, q: usize|
            after.page_tables.contains_key(p) && #[trigger] after.page_tables[p].contains_key(
                q,
            ) implies after.entry_ok(p, q) by {
            assert(v.page_tables.contains_key(p) && v.page_tables[p].contains_key(q));
            assert(v.entry_ok(p, q));
        }
    } else if v.has_free_frame() {
        let f = v.first_free();
        lemma_first_free(v);
        lemma_free_frame_unnamed(v, f);
        lemma_mapped(v, f, pid, page);
        let loaded = FrameManagerView {
            current_time: v.current_time + 1,
            page_faults: v.page_faults + 1,
            ..v.mapped(f, pid, page, now)
        };
        assert(loaded.valid());
        assert forall|g: int| 0 <= g < after.frames.len() implies #[trigger] after.frame_ok(g) by {
            assert(loaded.frame_ok(g));
        }
        assert forall|p: u32, q: usize|
            after.page_tables.contains_key(p) && #[trigger] after.page_tables[p].contains_key(
                q,
            ) implies after.entry_ok(p, q) by {
            assert(loaded.entry_ok(p, q));
        }
    } else if v.has_victim(policy, now as int) {
        let w = v.victim(policy, now as int);
        assert(v.is_victim(policy, now as int, w));
        assert(0 <= w < v.frames.len()) by {
            if policy == ReplacementPolicy::Fifo {
                assert(0 <= v.fifo_queue[0] < v.frames.len());
            }
        }
        assert(!v.is_free(w));
        let base = v.dequeued(policy);
        assert(base.valid()) by {
            assert forall|g: int| 0 <= g < base.frames.len() implies #[trigger] base.frame_ok(
                g,
            ) by {
                assert(v.frame_ok(g));
            }
            assert forall|p: u32, q: usize|
                base.page_tables.contains_key(p) && #[trigger] base.page_tables[p].contains_key(
                    q,
                ) implies base.entry_ok(p, q) by {
                assert(v.entry_ok(p, q));
            }
            assert forall|k: int| 0 <= k < base.fifo_queue.len() implies 0
                <= #[trigger] base.fifo_queue[k] < base.frames.len() by {
                if policy == ReplacementPolicy::Fifo {
                    assert(base.fifo_queue[k] == v.fifo_queue[k + 1]);
                }
            }
        }
        lemma_unmapped(base, w);
        assert(!base.resident(pid, page));
        lemma_mapped(base.unmapped(w), w, pid, page);
        let loaded = FrameManagerView {
            current_time: v.current_time + 1,
            page_faults: v.page_faults + 1,
            ..base.unmapped(w).mapped(w, pid, page, now)
        };
        assert(loaded.valid());
        assert forall|g: int| 0 <= g < after.frames.len() implies #[trigger] after.frame_ok(g) by {
            assert(loaded.frame_ok(g));
        }
        assert forall|p: u32, q: usize|
            after.page_tables.contains_key(p) && #[trigger] after.page_tables[p].contains_key(
                q,
            ) implies after.entry_ok(p, q) by {
            assert(loaded.entry_ok(p, q));
        }
    }
}

/// A page reference that is resolved leaves the page in memory, in the
/// frame that is returned, and counts as one hit or one fault; the number of
/// frames stays. Only the working-set policy can fail to resolve one, and
/// only where the page is not in memory, no frame is free and none may be
/// evicted; nothing changes then.
pub proof fn lemma_access_page_resolves(
    v: FrameManagerView,
    policy: ReplacementPolicy,
    pid: u32,
    page: usize,
)
    requires
        v.valid(),
        v.current_time < u64::MAX,
        v.can_access(policy, pid, page),
    ensures
        ({
            let (after, result) = v.access_page(policy, pid, page);
            let now = v.current_time as int + 1;
            &&& after.frames.len() == v.frames.len()
            &&& match result {
                Ok(frame) => {
                    &&& after.holds(frame as int, pid, page)
                    &&& after.resident(pid, page)
                    &&& after.current_time == v.current_time + 1
                    &&& after.page_hits == v.page_hits + (if v.resident(pid, page) {
                        1nat
                    } else {
                        0
                    })
                    &&& after.page_faults == v.page_faults + (if v.resident(pid, page) {
                        0nat
                    } else {
                        1
                    })
                },
                Err(_) => {
                    &&& policy is WorkingSet
                    &&& after == v
                    &&& !v.resident(pid, page)
                    &&& !v.has_free_frame()
                    &&& forall|f: int| !v.evictable(policy, now, f)
                },
            }
        }),
{
    let now = (v.current_time + 1) as u64;
    if v.resident(pid, page) {
        assert(v.entry_ok(pid, page));
    } else if v.has_free_frame() {
        lemma_first_free(v);
    } else if v.has_victim(policy, now as int) {
        let w = v.victim(policy, now as int);
        assert(v.is_victim(policy, now as int, w));
        if policy == ReplacementPolicy::Fifo {
            assert(0 <= v.fifo_queue[0] < v.frames.len());
        }
    } else {
        if policy == ReplacementPolicy::Lru || policy == ReplacementPolicy::Fifo {
            lemma_has_victim(v, policy, now as int);
        }
        assert forall|f: int| !v.evictable(policy, now as int, f) by {
            if v.evictable(policy, now as int, f) {
                lemma_least_recent(v, policy, now as int, v.frames.len() as int);
                let w = choose|w: int|
                    v.is_least_recent_below(policy, now as int, v.frames.len() as int, w);
                assert(v.is_victim(policy, now as int, w));
            }
        }
    }
}

/// A page in memory is in exactly one frame, and a frame holds the page of
/// exactly one entry: two valid entries that name the same frame are the
/// same entry, and the frame that an entry names holds its page.
pub proof fn lemma_one_page_per_frame(
    v: FrameManagerView,
    pid: u32,
    page: usize,
    other_pid: u32,
    other_page: usize,
)
    requires
        v.valid(),
        v.resident(pid, page),
        v.resident(other_pid, other_page),
        v.table(pid)[page].frame_number == v.table(other_pid)[other_page].frame_number,
    ensures
        pid == other_pid,
        page == other_page,
        v.holds(v.table(pid)[page].frame_number->0 as int, pid, page),
{
    assert(v.entry_ok(pid, page));
    assert(v.entry_ok(other_pid, other_page));
}

/// Where a frame is free, one of the free frames has the least number.
pub proof fn lemma_first_free(v: FrameManagerView)
    requires
        v.has_free_frame(),
    ensures
        v.is_first_free(v.first_free()),
{
    let f = choose|f: int| v.is_free(f);
    lemma_first_free_below(v, f);
}

proof fn lemma_first_free_below(v: FrameManagerView, f: int)
    requires
        v.is_free(f),
    ensures
        exists|g: int| v.is_first_free(g),
    decreases f,
{
    if exists|g: int| 0 <= g < f && v.is_free(g) {
        let g = choose|g: int| 0 <= g < f && v.is_free(g);
        lemma_first_free_below(v, g);
    } else {
        assert(v.is_first_free(f));
    }
}

/// A fixed pool of physical frames with the page tables of the processes
/// that use it.
pub struct FrameManager {
    frames: Vec<Frame>,
    /// Frames in the order in which FIFO references loaded them.
    fifo_queue: VecDeque<usize>,
    page_tables: HashMap<u32, PageTable>,
    page_faults: u64,
    page_hits: u64,
    current_time: u64,
}

impl View for FrameManager {
    type V = FrameManagerView;

    closed spec fn view(&self) -> FrameManagerView {
        FrameManagerView {
            frames: self.frames@,
            fifo_queue: self.fifo_queue@,
            page_tables: Map::new(
                |pid: u32| self.page_tables@.contains_key(pid),
                |pid: u32| self.page_tables@[pid]@,
            ),
            page_faults: self.page_faults as nat,
            page_hits: self.page_hits as nat,
            current_time: self.current_time as nat,
        }
    }
}

impl FrameManager {
    /// Whether each page table is filed under the process it belongs to.
    pub closed spec fn tables_labelled(&self) -> bool {
        forall|pid: u32| #[trigger]
            self.page_tables@.contains_key(pid) ==> self.page_tables@[pid].owner() == pid
    }

    /// The invariant of the frame manager. It holds after `new` and is kept
    /// by every operation.
    pub open spec fn wf(&self) -> bool {
        self@.valid() && self.tables_labelled()
    }

    /// A pool of `total_frames` free frames.
    pub fn new(total_frames: usize) -> (manager: Self)
        requires
            total_frames >= 1,
        ensures
            manager.wf(),
            manager@ == FrameManagerView::initial(total_frames),
    {
        let mut frames: Vec<Frame> = Vec::with_capacity(total_frames);
        let mut i: usize = 0;
        while i < total_frames
            invariant
                i <= total_frames,
                frames@.len() == i,
                forall|k: int| 0 <= k < i ==> #[trigger] frames@[k] == Frame::vacant(k as usize),
            decreases total_frames - i,
        {
            frames.push(Frame { frame_num: i, pid: None, page_num: None, load_time: 0 });
            i += 1;
        }
        let manager = Self {
            frames,
            fifo_queue: VecDeque::new(),
            page_tables: HashMap::new(),
            page_faults: 0,
            page_hits: 0,
            current_time: 0,
        };
        proof {
            let initial = FrameManagerView::initial(total_frames);
            assert(manager@.frames =~= initial.frames);
            assert(manager@.page_tables =~= initial.page_tables);
            assert forall|f: int| 0 <= f < manager@.frames.len() implies #[trigger] manager@.frame_ok(
                f,
            ) by {}
        }
        manager
    }

    /// Gives `pid` an empty page table, unless it has one.
    pub fn create_page_table(&mut self, pid: u32)
        requires
            old(self).wf(),
        ensures
            final(self).wf(),
            final(self)@ == old(self)@.with_table(pid),
    {
        self.ensure_table(pid);
        proof {
            let before = old(self)@;
            let after = self@;
            assert forall|f: int| 0 <= f < after.frames.len() implies #[trigger] after.frame_ok(
                f,
            ) by {
                assert(before.frame_ok(f));
            }
            assert forall|p: u32, q: usize|
                after.page_tables.contains_key(p) && #[trigger] after.page_tables[p].contains_key(
                    q,
                ) implies after.entry_ok(p, q) by {
                assert(before.entry_ok(p, q));
            }
        }
    }

    /// Resolves a reference to page `page_num` of `pid`, and returns the
    /// frame that holds the page. Time advances by one. A page in memory is a
    /// hit. Otherwise the page is loaded into the first free frame or, where
    /// none is free, into the frame that `policy` picks, whose page leaves
    /// memory. Where the working-set policy finds no frame to reuse, nothing
    /// changes and the reference fails.
    pub fn access_page(&mut self, policy: ReplacementPolicy, pid: u32, page_num: usize) -> (result:
        Result<usize, PagingError>)
        requires
            old(self).wf(),
            old(self)@.current_time < u64::MAX,
            old(self)@.can_access(policy, pid, page_num),
        ensures
            final(self).wf(),
            (final(self)@, result) == old(self)@.access_page(policy, pid, page_num),
    {
        let ghost before = self@;
        let now: u64 = self.current_time + 1;
        proof {
            lemma_access_page_valid(before, policy, pid, page_num);
        }
        if let Some(frame_num) = self.lookup(pid, page_num) {
            self.current_time = now;
            self.touch(pid, page_num, now);
            self.page_hits += 1;
            return Ok(frame_num);
        }
        let free: Option<usize> = self.find_free_frame();
        if let Some(free_idx) = free {
            proof {
                assert(before.is_first_free(free_idx as int));
                assert forall|f: int| before.is_first_free(f) implies f == free_idx by {}
                assert(before.has_free_frame());
            }
            self.current_time = now;
            self.page_faults += 1;
            self.ensure_table(pid);
            match policy {
                ReplacementPolicy::Fifo => self.allocate_frame_fifo(free_idx, pid, page_num),
                _ => self.allocate_frame_lru(free_idx, pid, page_num),
            }
            proof {
                assert(self@.page_tables =~= before.access_page(policy, pid, page_num).0.page_tables);
            }
            return Ok(free_idx);
        }
        proof {
            assert forall|f: int| !before.is_free(f) by {}
        }
        let victim_idx: usize = match policy {
            ReplacementPolicy::Fifo => {
                proof {
                    assert(before.is_victim(policy, now as int, before.fifo_queue[0] as int));
                }
                self.fifo_queue.pop_front().unwrap()
            },
            ReplacementPolicy::Lru => self.find_lru_victim(),
            ReplacementPolicy::WorkingSet(window) => {
                match self.find_working_set_victim(now, window) {
                    Some(victim) => victim,
                    None => {
                        proof {
                            assert(self@ == before);
                            assert forall|v: int| !before.is_victim(policy, now as int, v) by {
                                assert(!self@.evictable(
                                    ReplacementPolicy::WorkingSet(window),
                                    now as int,
                                    v,
                                ));
                            }
                        }
                        return Err(PagingError::Thrashing);
                    },
                }
            },
        };
        proof {
            assert(before.is_victim(policy, now as int, victim_idx as int));
            assert forall|v: int| before.is_victim(policy, now as int, v) implies v
                == victim_idx by {
                if policy != ReplacementPolicy::Fifo {
                    assert(before.evictable(policy, now as int, v));
                    assert(before.evictable(policy, now as int, victim_idx as int));
                }
            }
            assert(self@ == before.dequeued(policy));
            assert(0 <= victim_idx < before.frames.len());
            assert(before.frame_ok(victim_idx as int));
            assert(!before.is_free(victim_idx as int));
            let owner = before.frames[victim_idx as int].pid->0;
            assert(before.resident(owner, before.frames[victim_idx as int].page_num->0));
            assert(before.page_tables.contains_key(owner));
            assert(self.page_tables@.contains_key(owner));
        }
        self.current_time = now;
        self.page_faults += 1;
        self.ensure_table(pid);
        match policy {
            ReplacementPolicy::Fifo => self.replace_frame_fifo(victim_idx, pid, page_num),
            _ => self.replace_frame_lru(victim_idx, pid, page_num),
        }
        proof {
            assert(self@.page_tables =~= before.access_page(policy, pid, page_num).0.page_tables);
        }
        Ok(victim_idx)
    }

    /// Resolves a reference under FIFO replacement.
    pub fn access_page_fifo(&mut self, pid: u32, page_num: usize) -> (result: Result<
        usize,
        PagingError,
    >)
        requires
            old(self).wf(),
            old(self)@.current_time < u64::MAX,
            old(self)@.can_access(ReplacementPolicy::Fifo, pid, page_num),
        ensures
            final(self).wf(),
            (final(self)@, result) == old(self)@.access_page(
                ReplacementPolicy::Fifo,
                pid,
                page_num,
            ),
    {
        self.access_page(ReplacementPolicy::Fifo, pid, page_num)
    }

    /// Resolves a reference under least-recently-used replacement.
    pub fn access_page_lru(&mut self, pid: u32, page_num: usize) -> (result: Result<
        usize,
        PagingError,
    >)
        requires
            old(self).wf(),
            old(self)@.current_time < u64::MAX,
        ensures
            final(self).wf(),
            (final(self)@, result) == old(self)@.access_page(ReplacementPolicy::Lru, pid, page_num),
    {
        self.access_page(ReplacementPolicy::Lru, pid, page_num)
    }

    /// Resolves a reference under working-set replacement with the given window.
    pub fn access_page_working_set(&mut self, pid: u32, page_num: usize, window: u64) -> (result:
        Result<usize, PagingError>)
        requires
            old(self).wf(),
            old(self)@.current_time < u64::MAX,
        ensures
            final(self).wf(),
            (final(self)@, result) == old(self)@.access_page(
                ReplacementPolicy::WorkingSet(window),
                pid,
                page_num,
            ),
    {
        self.access_page(ReplacementPolicy::WorkingSet(window), pid, page_num)
    }

    /// The frame that holds page `page_num` of `pid`, if the page is in memory.
    fn lookup(&self, pid: u32, page_num: usize) -> (frame: Option<usize>)
        requires
            self.wf(),
        ensures
            frame is Some <==> self@.resident(pid, page_num),
            frame is Some ==> frame == self@.table(pid)[page_num].frame_number,
    {
        match self.page_tables.get(&pid) {
            Some(table) => {
                match table.entry(page_num) {
                    Some(entry) => {
                        proof {
                            assert(self@.page_tables[pid].contains_key(page_num));
                            assert(self@.entry_ok(pid, page_num));
                        }
                        if entry.valid {
                            entry.frame_number
                        } else {
                            None
                        }
                    },
                    None => None,
                }
            },
            None => None,
        }
    }

    /// Gives `pid` an empty page table, unless it has one.
    fn ensure_table(&mut self, pid: u32)
        requires
            old(self).tables_labelled(),
        ensures
            final(self).tables_labelled(),
            final(self)@ == old(self)@.with_table(pid),
            final(self).page_tables@.contains_key(pid),
            forall|p: u32|
                old(self).page_tables@.contains_key(p) ==> #[trigger] final(self).page_tables@.contains_key(p),
    {
        if !self.page_tables.contains_key(&pid) {
            self.page_tables.insert(pid, PageTable::new(pid));
        }
        proof {
            assert(self@.page_tables =~= old(self)@.with_table(pid).page_tables);
        }
    }

    /// Notes a reference at time `now` in the page table of `pid`.
    fn touch(&mut self, pid: u32, page_num: usize, now: u64)
        requires
            old(self).tables_labelled(),
            old(self).page_tables@.contains_key(pid),
        ensures
            final(self).tables_labelled(),
            final(self)@ == old(self)@.touched(pid, page_num, now),
    {
        let mut table: PageTable = self.page_tables.remove(&pid).unwrap();
        let _ = table.access(page_num, now);
        self.page_tables.insert(pid, table);
        proof {
            assert(self@.page_tables =~= old(self)@.touched(pid, page_num, now).page_tables);
        }
    }

    /// Index of the free frame with the least number.
    fn find_free_frame(&self) -> (found: Option<usize>)
        ensures
            match found {
                Some(f) => self@.is_first_free(f as int),
                None => forall|f: int| !self@.is_free(f),
            },
    {
        let mut i: usize = 0;
        while i < self.frames.len()
            invariant
                i <= self.frames.len(),
                forall|g: int| 0 <= g < i ==> !self@.is_free(g),
            decreases self.frames.len() - i,
        {
            if self.frames[i].pid.is_none() {
                return Some(i);
            }
            i += 1;
        }
        None
    }

    /// Loads a page into free frame `frame_idx` and queues the frame.
    fn allocate_frame_fifo(&mut self, frame_idx: usize, pid: u32, page_num: usize)
        requires
            old(self).tables_labelled(),
            old(self).page_tables@.contains_key(pid),
            frame_idx < old(self)@.frames.len(),
        ensures
            final(self).tables_labelled(),
            final(self)@ == old(self)@.mapped(
                frame_idx as int,
                pid,
                page_num,
                old(self)@.current_time as u64,
            ).queued(ReplacementPolicy::Fifo, frame_idx as int),
    {
        self.frames[frame_idx] = Frame {
            frame_num: frame_idx,
            pid: Some(pid),
            page_num: Some(page_num),
            load_time: self.current_time,
        };
        self.fifo_queue.push_back(frame_idx);
        self.map_page(pid, page_num, frame_idx);
    }

    /// Loads a page into free frame `frame_idx`.
    fn allocate_frame_lru(&mut self, frame_idx: usize, pid: u32, page_num: usize)
        requires
            old(self).tables_labelled(),
            old(self).page_tables@.contains_key(pid),
            frame_idx < old(self)@.frames.len(),
        ensures
            final(self).tables_labelled(),
            final(self)@ == old(self)@.mapped(
                frame_idx as int,
                pid,
                page_num,
                old(self)@.current_time as u64,
            ),
    {
        self.frames[frame_idx] = Frame {
            frame_num: frame_idx,
            pid: Some(pid),
            page_num: Some(page_num),
            load_time: self.current_time,
        };
        self.map_page(pid, page_num, frame_idx);
    }

    /// Enters the page as loaded into `frame_idx` now in the page table of `pid`.
    fn map_page(&mut self, pid: u32, page_num: usize, frame_idx: usize)
        requires
            old(self).tables_labelled(),
            old(self).page_tables@.contains_key(pid),
        ensures
            final(self).tables_labelled(),
            final(self)@ == (FrameManagerView {
                page_tables: old(self)@.page_tables.insert(
                    pid,
                    old(self)@.table(pid).insert(
                        page_num,
                        PageTableEntry::present(frame_idx, old(self)@.current_time as u64),
                    ),
                ),
                ..old(self)@
            }),
            final(self).page_tables@.dom() == old(self).page_tables@.dom(),
    {
        let mut table: PageTable = self.page_tables.remove(&pid).unwrap();
        table.map(page_num, frame_idx, self.current_time);
        self.page_tables.insert(pid, table);
        proof {
            assert(self@.page_tables =~= old(self)@.page_tables.insert(
                pid,
                old(self)@.table(pid).insert(
                    page_num,
                    PageTableEntry::present(frame_idx, old(self)@.current_time as u64),
                ),
            ));
            assert(self.page_tables@.dom() =~= old(self).page_tables@.dom());
        }
    }

    /// Marks the page that frame `frame_idx` holds as no longer in memory.
    fn unmap_frame(&mut self, frame_idx: usize)
        requires
            old(self).tables_labelled(),
            frame_idx < old(self)@.frames.len(),
            old(self)@.frames[frame_idx as int].pid is Some,
            old(self)@.frames[frame_idx as int].page_num is Some,
            old(self).page_tables@.contains_key(old(self)@.frames[frame_idx as int].pid->0),
        ensures
            final(self).tables_labelled(),
            final(self)@ == old(self)@.unmapped(frame_idx as int),
            final(self).page_tables@.dom() == old(self).page_tables@.dom(),
    {
        if let Some(old_pid) = self.frames[frame_idx].pid {
            if let Some(old_page) = self.frames[frame_idx].page_num {
                if self.page_tables.contains_key(&old_pid) {
                    let mut old_table: PageTable = self.page_tables.remove(&old_pid).unwrap();
                    old_table.invalidate(old_page);
                    self.page_tables.insert(old_pid, old_table);
                }
            }
        }
        proof {
            assert(self@.page_tables =~= old(self)@.unmapped(frame_idx as int).page_tables);
            assert(self.page_tables@.dom() =~= old(self).page_tables@.dom());
        }
    }

    /// Evicts the page of frame `frame_idx`, loads the new page into the
    /// frame, and queues the frame.
    fn replace_frame_fifo(&mut self, frame_idx: usize, new_pid: u32, new_page: usize)
        requires
            old(self).tables_labelled(),
            old(self).page_tables@.contains_key(new_pid),
            frame_idx < old(self)@.frames.len(),
            old(self)@.frames[frame_idx as int].pid is Some,
            old(self)@.frames[frame_idx as int].page_num is Some,
            old(self).page_tables@.contains_key(old(self)@.frames[frame_idx as int].pid->0),
        ensures
            final(self).tables_labelled(),
            final(self)@ == old(self)@.unmapped(frame_idx as int).mapped(
                frame_idx as int,
                new_pid,
                new_page,
                old(self)@.current_time as u64,
            ).queued(ReplacementPolicy::Fifo, frame_idx as int),
    {
        self.unmap_frame(frame_idx);
        self.frames[frame_idx] = Frame {
            frame_num: frame_idx,
            pid: Some(new_pid),
            page_num: Some(new_page),
            load_time: self.current_time,
        };
        self.fifo_queue.push_back(frame_idx);
        self.map_page(new_pid, new_page, frame_idx);
    }

    /// Evicts the page of frame `frame_idx` and loads the new page into the frame.
    fn replace_frame_lru(&mut self, frame_idx: usize, new_pid: u32, new_page: usize)
        requires
            old(self).tables_labelled(),
            old(self).page_tables@.contains_key(new_pid),
            frame_idx < old(self)@.frames.len(),
            old(self)@.frames[frame_idx as int].pid is Some,
            old(self)@.frames[frame_idx as int].page_num is Some,
            old(self).page_tables@.contains_key(old(self)@.frames[frame_idx as int].pid->0),
        ensures
            final(self).tables_labelled(),
            final(self)@ == old(self)@.unmapped(frame_idx as int).mapped(
                frame_idx as int,
                new_pid,
                new_page,
                old(self)@.current_time as u64,
            ),
    {
        self.unmap_frame(frame_idx);
        self.frames[frame_idx] = Frame {
            frame_num: frame_idx,
            pid: Some(new_pid),
            page_num: Some(new_page),
            load_time: self.current_time,
        };
        self.map_page(new_pid, new_page, frame_idx);
    }

    /// Time of the last reference to the page that frame `idx` holds.
    fn last_access_of(&self, idx: usize) -> (time: u64)
        requires
            self.wf(),
            idx < self@.frames.len(),
            self@.frames[idx as int].pid is Some,
        ensures
            time == self@.last_used(idx as int),
            time <= self@.current_time,
    {
        proof {
            assert(self@.frame_ok(idx as int));
            assert(self@.entry_ok(
                self@.frames[idx as int].pid->0,
                self@.frames[idx as int].page_num->0,
            ));
        }
        let frame: Frame = self.frames[idx];
        let mut time: u64 = 0;
        if let Some(pid) = frame.pid {
            if let Some(page_num) = frame.page_num {
                if let Some(table) = self.page_tables.get(&pid) {
                    if let Some(entry) = table.entry(page_num) {
                        time = entry.last_access;
                    }
                }
            }
        }
        time
    }

    /// The frame whose page was referenced least recently; among several,
    /// the one with the least number.
    fn find_lru_victim(&self) -> (victim_idx: usize)
        requires
            self.wf(),
            forall|f: int| !self@.is_free(f),
        ensures
            forall|now: int| self@.is_victim(ReplacementPolicy::Lru, now, victim_idx as int),
    {
        let mut min_time: u64 = u64::MAX;
        let mut victim_idx: usize = 0;
        let mut idx: usize = 0;
        while idx < self.frames.len()
            invariant
                self.wf(),
                forall|f: int| !self@.is_free(f),
                idx <= self.frames.len(),
                victim_idx == 0 || victim_idx < idx,
                idx == 0 ==> min_time == u64::MAX,
                idx > 0 ==> min_time == self@.last_used(victim_idx as int),
                forall|f: int|
                    0 <= f < idx ==> min_time < #[trigger] self@.last_used(f) || (min_time
                        == self@.last_used(f) && victim_idx <= f),
            decreases self.frames.len() - idx,
        {
            proof {
                assert(!self@.is_free(idx as int));
            }
            let time: u64 = self.last_access_of(idx);
            if time < min_time {
                min_time = time;
                victim_idx = idx;
            }
            idx += 1;
        }
        proof {
            assert forall|now: int|
                self@.is_victim(ReplacementPolicy::Lru, now, victim_idx as int) by {
                assert(self@.evictable(ReplacementPolicy::Lru, now, victim_idx as int));
            }
        }
        victim_idx
    }

    /// Among the frames whose page was last referenced more than `window`
    /// before `now`, the one whose page was referenced least recently; among
    /// several, the one with the least number.
    fn find_working_set_victim(&self, now: u64, window: u64) -> (victim: Option<usize>)
        requires
            self.wf(),
            forall|f: int| !self@.is_free(f),
            now > self@.current_time,
        ensures
            match victim {
                Some(v) => self@.is_victim(
                    ReplacementPolicy::WorkingSet(window),
                    now as int,
                    v as int,
                ),
                None => forall|f: int|
                    !self@.evictable(ReplacementPolicy::WorkingSet(window), now as int, f),
            },
    {
        let ghost policy = ReplacementPolicy::WorkingSet(window);
        let mut victim: Option<usize> = None;
        let mut min_time: u64 = 0;
        let mut idx: usize = 0;
        while idx < self.frames.len()
            invariant
                self.wf(),
                forall|f: int| !self@.is_free(f),
                now > self@.current_time,
                policy == ReplacementPolicy::WorkingSet(window),
                idx <= self.frames.len(),
                match victim {
                    Some(v) => v < idx && min_time == self@.last_used(v as int) && self@.evictable(
                        policy,
                        now as int,
                        v as int,
                    ) && forall|f: int|
                        0 <= f < idx && #[trigger] self@.evictable(policy, now as int, f)
                            ==> min_time < self@.last_used(f) || (min_time == self@.last_used(f)
                            && v <= f),
                    None => forall|f: int|
                        0 <= f < idx ==> !#[trigger] self@.evictable(policy, now as int, f),
                },
            decreases self.frames.len() - idx,
        {
            proof {
                assert(!self@.is_free(idx as int));
            }
            let time: u64 = self.last_access_of(idx);
            if now - time > window {
                if victim.is_none() || time < min_time {
                    min_time = time;
                    victim = Some(idx);
                }
            }
            idx += 1;
        }
        victim
    }

    /// The counters: faults, hits, and references counted.
    pub fn stats(&self) -> (stats: MemoryStats)
        requires
            self.wf(),
        ensures
            stats == self@.stats(),
    {
        MemoryStats {
            page_faults: self.page_faults,
            page_hits: self.page_hits,
            total_accesses: self.page_hits + self.page_faults,
        }
    }

    /// Sets the fault and hit counters back to zero.
    pub fn reset_stats(&mut self)
        requires
            old(self).wf(),
        ensures
            final(self).wf(),
            final(self)@ == (FrameManagerView { page_faults: 0, page_hits: 0, ..old(self)@ }),
    {
        self.page_faults = 0;
        self.page_hits = 0;
        proof {
            let before = old(self)@;
            let after = self@;
            assert forall|f: int| 0 <= f < after.frames.len() implies #[trigger] after.frame_ok(
                f,
            ) by {
                assert(before.frame_ok(f));
            }
            assert forall|p: u32, q: usize|
                after.page_tables.contains_key(p) && #[trigger] after.page_tables[p].contains_key(
                    q,
                ) implies after.entry_ok(p, q) by {
                assert(before.entry_ok(p, q));
            }
        }
    }

    /// The frames, by number.
    pub fn frames(&self) -> (frames: &Vec<Frame>)
        ensures
            frames@ == self@.frames,
    {
        &self.frames
    }

    /// The time: the number of references made so far.
    pub fn current_time(&self) -> (time: u64)
        ensures
            time == self@.current_time,
    {
        self.current_time
    }

    /// Whether a reference to page `page_num` of `pid` under `policy` is defined.
    pub fn can_access(&self, policy: ReplacementPolicy, pid: u32, page_num: usize) -> (defined:
        bool)
        requires
            self.wf(),
        ensures
            defined == self@.can_access(policy, pid, page_num),
    {
        match policy {
            ReplacementPolicy::Fifo => {
                let free = self.find_free_frame();
                proof {
                    if free is Some {
                        assert(self@.is_free(free->0 as int));
                    }
                }
                self.lookup(pid, page_num).is_some() || free.is_some() || self.fifo_queue.len()
                    > 0
            },
            _ => true,
        }
    }
}

} // verus!
