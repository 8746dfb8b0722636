//! Disk head scheduling: first come first served, shortest seek time first,
//! and the elevator algorithm, with a simulator that measures head movement.
use vstd::prelude::*;
use vstd::multiset::Multiset;
use vstd::seq_lib::{
    to_multiset_build, to_multiset_contains, to_multiset_insert, to_multiset_len,
    to_multiset_remove,
};
use std::collections::VecDeque;

verus! {

/// A request for access to a cylinder.
#[derive(Debug, Clone, Copy)]
pub struct DiskRequest {
    pub pid: u32,
    pub cylinder: usize,
    pub timestamp: u64,
}

/// The number of cylinders between `a` and `b`.
pub open spec fn distance(a: usize, b: usize) -> int {
    if a > b {
        a - b
    } else {
        b - a
    }
}

/// A policy that decides which waiting request the head serves next.
pub trait DiskScheduler {
    /// The waiting requests, in the order in which the scheduler keeps them.
    spec fn pending(&self) -> Seq<DiskRequest>;

    /// The name of the policy.
    spec fn label(&self) -> Seq<char>;

    /// Admits a request.
    fn add_request(&mut self, request: DiskRequest)
        ensures
            final(self).pending().to_multiset() == old(self).pending().to_multiset().insert(
                request,
            ),
    ;

    /// Takes out the request to serve next with the head at
    /// `current_position`, if any request waits.
    fn next_request(&mut self, current_position: usize) -> (next: Option<DiskRequest>)
        ensures
            match next {
                Some(request) => {
                    &&& old(self).pending().contains(request)
                    &&& final(self).pending().len() == old(self).pending().len() - 1
                    &&& final(self).pending().to_multiset() == old(
                        self,
                    ).pending().to_multiset().remove(request)
                },
                None => old(self).pending().len() == 0 && final(self).pending().len() == 0,
            },
    ;

    /// Whether no request waits.
    fn is_empty(&self) -> (empty: bool)
        ensures
            empty == (self.pending().len() == 0),
    ;

    /// The name of the policy.
    fn name(&self) -> (name: &str)
        ensures
            name@ == self.label(),
    ;
}

/// First come, first served: requests are served in the order of arrival.
pub struct FcfsScheduler {
    queue: VecDeque<DiskRequest>,
}

impl FcfsScheduler {
    /// A scheduler without requests.
    pub fn new() -> (s: Self)
        ensures
            s.pending() == Seq::<DiskRequest>::empty(),
    {
        Self { queue: VecDeque::new() }
    }
}

impl DiskScheduler for FcfsScheduler {
    closed spec fn pending(&self) -> Seq<DiskRequest> {
        self.queue@
    }

    open spec fn label(&self) -> Seq<char> {
        "FCFS"@
    }

    fn add_request(&mut self, request: DiskRequest)
        ensures
            final(self).pending() == old(self).pending().push(request),
    {
        broadcast use to_multiset_build;

        self.queue.push_back(request);
    }

    fn next_request(&mut self, _current_position: usize) -> (next: Option<DiskRequest>)
        ensures
            match next {
                Some(request) => {
                    &&& old(self).pending().len() > 0
                    &&& request == old(self).pending()[0]
                    &&& final(self).pending() == old(self).pending().drop_first()
                },
                None => old(self).pending().len() == 0,
            },
    {
        broadcast use to_multiset_remove;

        let next = self.queue.pop_front();
        proof {
            if next is Some {
                assert(old(self).pending()[0] == next->0);
                assert(self.pending() =~= old(self).pending().remove(0));
            }
        }
        next
    }

    fn is_empty(&self) -> (empty: bool) {
        self.queue.len() == 0
    }

    fn name(&self) -> (name: &str) {
        "FCFS"
    }
}

/// Whether request `i` of `pending` is the one nearest to `position`, and
/// the earliest arrival among those that are equally near.
pub open spec fn is_nearest(pending: Seq<DiskRequest>, position: usize, i: int) -> bool {
    &&& 0 <= i < pending.len()
    &&& forall|j: int|
        0 <= j < pending.len() ==> distance(pending[i].cylinder, position) <= distance(
            (#[trigger] pending[j]).cylinder,
            position,
        )
    &&& forall|j: int|
        0 <= j < i ==> distance((#[trigger] pending[j]).cylinder, position) > distance(
            pending[i].cylinder,
            position,
        )
}

/// Shortest seek time first: the request nearest to the head is served next.
pub struct SstfScheduler {
    requests: Vec<DiskRequest>,
}

impl SstfScheduler {
    /// A scheduler without requests.
    pub fn new() -> (s: Self)
        ensures
            s.pending() == Seq::<DiskRequest>::empty(),
    {
        Self { requests: Vec::new() }
    }
}

impl DiskScheduler for SstfScheduler {
    closed spec fn pending(&self) -> Seq<DiskRequest> {
        self.requests@
    }

    open spec fn label(&self) -> Seq<char> {
        "SSTF"@
    }

    fn add_request(&mut self, request: DiskRequest)
        ensures
            final(self).pending() == old(self).pending().push(request),
    {
        broadcast use to_multiset_build;

        self.requests.push(request);
    }

    fn next_request(&mut self, current_position: usize) -> (next: Option<DiskRequest>)
        ensures
            match next {
                Some(request) => exists|i: int|
                    {
                        &&& is_nearest(old(self).pending(), current_position, i)
                        &&& request == old(self).pending()[i]
                        &&& final(self).pending() == old(self).pending().remove(i)
                    },
                None => old(self).pending().len() == 0,
            },
    {
        broadcast use to_multiset_remove;

        if self.requests.len() == 0 {
            return None;
        }
        let mut min_distance: usize = usize::MAX;
        let mut closest_idx: usize = 0;
        let mut idx: usize = 0;
        while idx < self.requests.len()
            invariant
                idx <= self.requests.len(),
                self.requests.len() > 0,
                closest_idx < self.requests.len(),
                idx == 0 ==> closest_idx == 0 && min_distance == usize::MAX,
                idx > 0 ==> closest_idx < idx && min_distance == distance(
                    self.requests@[closest_idx as int].cylinder,
                    current_position,
                ),
                forall|j: int|
                    0 <= j < idx ==> min_distance <= distance(
                        (#[trigger] self.requests@[j]).cylinder,
                        current_position,
                    ),
                forall|j: int|
                    0 <= j < closest_idx ==> distance(
                        (#[trigger] self.requests@[j]).cylinder,
                        current_position,
                    ) > min_distance,
            decreases self.requests.len() - idx,
        {
            let cylinder: usize = self.requests[idx].cylinder;
            let distance: usize = if cylinder > current_position {
                cylinder - current_position
            } else {
                current_position - cylinder
            };
            if distance < min_distance {
                min_distance = distance;
                closest_idx = idx;
            }
            idx += 1;
        }
        proof {
            assert(is_nearest(self.pending(), current_position, closest_idx as int));
            assert(self.pending().contains(self.pending()[closest_idx as int]));
        }
        Some(self.requests.remove(closest_idx))
    }

    fn is_empty(&self) -> (empty: bool) {
        self.requests.len() == 0
    }

    fn name(&self) -> (name: &str) {
        "SSTF"
    }
}

/// Direction in which the head sweeps.
#[derive(Debug, Clone, Copy, PartialEq, Eq, Structural)]
pub enum ScanDirection {
    Up,
    Down,
}

/// The number of requests at the head of `requests` whose cylinder is not
/// above `cylinder`.
pub open spec fn not_above(requests: Seq<DiskRequest>, cylinder: usize) -> int
    decreases requests.len(),
{
    if requests.len() == 0 || requests[0].cylinder > cylinder {
        0
    } else {
        1 + not_above(requests.drop_first(), cylinder)
    }
}

/// Whether the cylinders of `requests` never decrease from one request to the next.
pub open spec fn ascending(requests: Seq<DiskRequest>) -> bool {
    forall|i: int, j: int|
        0 <= i <= j < requests.len() ==> (#[trigger] requests[i]).cylinder <= (
        #[trigger] requests[j]).cylinder
}

/// `requests` in the order of their cylinders; requests for the same
/// cylinder stay in their order.
pub open spec fn by_cylinder(requests: Seq<DiskRequest>) -> Seq<DiskRequest>
    decreases requests.len(),
{
    if requests.len() == 0 {
        Seq::empty()
    } else {
        let sorted = by_cylinder(requests.drop_last());
        sorted.insert(not_above(sorted, requests.last().cylinder), requests.last())
    }
}

/// In requests that are ordered by cylinder, those whose cylinder is not
/// above `cylinder` are exactly the ones at the head.
pub proof fn lemma_not_above(requests: Seq<DiskRequest>, cylinder: usize)
    requires
        ascending(requests),
    ensures
        0 <= not_above(requests, cylinder) <= requests.len(),
        forall|i: int|
            0 <= i < not_above(requests, cylinder) ==> (#[trigger] requests[i]).cylinder
                <= cylinder,
        forall|i: int|
            not_above(requests, cylinder) <= i < requests.len() ==> (
            #[trigger] requests[i]).cylinder > cylinder,
    decreases requests.len(),
{
    if requests.len() > 0 && requests[0].cylinder <= cylinder {
        let rest = requests.drop_first();
        assert forall|i: int, j: int| 0 <= i <= j < rest.len() implies (
        #[trigger] rest[i]).cylinder <= (#[trigger] rest[j]).cylinder by {
            assert(rest[i] == requests[i + 1] && rest[j] == requests[j + 1]);
        }
        lemma_not_above(rest, cylinder);
        assert forall|i: int| 0 <= i < not_above(requests, cylinder) implies (
        #[trigger] requests[i]).cylinder <= cylinder by {
            if i > 0 {
                assert(requests[i] == rest[i - 1]);
            }
        }
        assert forall|i: int| not_above(requests, cylinder) <= i < requests.len() implies (
        #[trigger] requests[i]).cylinder > cylinder by {
            assert(requests[i] == rest[i - 1]);
        }
    } else if requests.len() > 0 {
        assert forall|i: int| 0 <= i < requests.len() implies (#[trigger] requests[i]).cylinder
            > cylinder by {
            assert(requests[0].cylinder <= requests[i].cylinder);
        }
    }
}

/// The only place that splits ordered requests into those not above
/// `cylinder` and those above it is the number of the former.
pub proof fn lemma_not_above_unique(requests: Seq<DiskRequest>, cylinder: usize, place: int)
    requires
        ascending(requests),
        0 <= place <= requests.len(),
        forall|i: int| 0 <= i < place ==> (#[trigger] requests[i]).cylinder <= cylinder,
        forall|i: int| place <= i < requests.len() ==> (#[trigger] requests[i]).cylinder > cylinder,
    ensures
        place == not_above(requests, cylinder),
{
    lemma_not_above(requests, cylinder);
    let n = not_above(requests, cylinder);
    if place < n {
        assert(requests[place].cylinder <= cylinder);
    } else if n < place {
        assert(requests[n].cylinder > cylinder);
    }
}

/// Putting a request behind those that are not above it keeps the order.
pub proof fn lemma_insert_ascending(requests: Seq<DiskRequest>, request: DiskRequest)
    requires
        ascending(requests),
    ensures
        ascending(requests.insert(not_above(requests, request.cylinder), request)),
        0 <= not_above(requests, request.cylinder) <= requests.len(),
{
    lemma_not_above(requests, request.cylinder);
    let place = not_above(requests, request.cylinder);
    let after = requests.insert(place, request);
    assert forall|i: int, j: int| 0 <= i <= j < after.len() implies (
    #[trigger] after[i]).cylinder <= (#[trigger] after[j]).cylinder by {
        let a = if i < place {
            i
        } else {
            i - 1
        };
        let b = if j < place {
            j
        } else {
            j - 1
        };
        if i != place && j != place {
            assert(after[i] == requests[a] && after[j] == requests[b]);
        } else if i == place && j != place {
            assert(after[j] == requests[b]);
        } else if j == place && i != place {
            assert(after[i] == requests[a]);
        }
    }
}

/// Ordering by cylinder gives the same requests, each as often as before,
/// with cylinders that never decrease.
pub proof fn lemma_by_cylinder(requests: Seq<DiskRequest>)
    ensures
        ascending(by_cylinder(requests)),
        by_cylinder(requests).len() == requests.len(),
        by_cylinder(requests).to_multiset() == requests.to_multiset(),
    decreases requests.len(),
{
    broadcast use {to_multiset_build, to_multiset_insert};

    if requests.len() > 0 {
        let front = requests.drop_last();
        lemma_by_cylinder(front);
        lemma_insert_ascending(by_cylinder(front), requests.last());
        assert(front.push(requests.last()) =~= requests);
    } else {
        assert(requests =~= Seq::<DiskRequest>::empty());
    }
}

/// A request taken out of the ordered requests was waiting, and the others
/// are those that waited but for it.
pub proof fn lemma_taken(pending: Seq<DiskRequest>, i: int)
    requires
        0 <= i < pending.len(),
    ensures
        pending.contains(by_cylinder(pending)[i]),
        by_cylinder(pending).remove(i).to_multiset() == pending.to_multiset().remove(
            by_cylinder(pending)[i],
        ),
{
    let sorted = by_cylinder(pending);
    lemma_by_cylinder(pending);
    assert(sorted.contains(sorted[i]));
    to_multiset_contains(sorted, sorted[i]);
    to_multiset_contains(pending, sorted[i]);
    to_multiset_remove(sorted, i);
}

/// The mathematical value of a [`ScanScheduler`].
pub struct ScanView {
    pub pending: Seq<DiskRequest>,
    pub direction: ScanDirection,
    pub max_cylinder: usize,
}

impl ScanView {
    /// Whether `i` is the first of the ordered requests at or above `position`.
    pub open spec fn is_next_up(self, position: usize, i: int) -> bool {
        let sorted = by_cylinder(self.pending);
        &&& 0 <= i < sorted.len()
        &&& sorted[i].cylinder >= position
        &&& forall|j: int| 0 <= j < i ==> (#[trigger] sorted[j]).cylinder < position
    }

    /// Whether `i` is the last of the ordered requests at or below `position`.
    pub open spec fn is_next_down(self, position: usize, i: int) -> bool {
        let sorted = by_cylinder(self.pending);
        &&& 0 <= i < sorted.len()
        &&& sorted[i].cylinder <= position
        &&& forall|j: int| i < j < sorted.len() ==> (#[trigger] sorted[j]).cylinder > position
    }

    /// Whether, with the head at `position`, the scheduler takes request `i`
    /// of the ordered requests and then sweeps in direction `then`. The head
    /// goes on in its direction to the nearest request; where none lies
    /// ahead it turns round and takes the farthest request behind it.
    pub open spec fn takes(self, position: usize, i: int, then: ScanDirection) -> bool {
        let sorted = by_cylinder(self.pending);
        match self.direction {
            ScanDirection::Up => {
                if exists|k: int| self.is_next_up(position, k) {
                    self.is_next_up(position, i) && then == ScanDirection::Up
                } else {
                    i == sorted.len() - 1 && then == ScanDirection::Down
                }
            },
            ScanDirection::Down => {
                if exists|k: int| self.is_next_down(position, k) {
                    self.is_next_down(position, i) && then == ScanDirection::Down
                } else {
                    i == 0 && then == ScanDirection::Up
                }
            },
        }
    }
}

/// The elevator algorithm: the head sweeps in one direction and serves the
/// requests on its way, then turns round.
pub struct ScanScheduler {
    requests: Vec<DiskRequest>,
    direction: ScanDirection,
    max_cylinder: usize,
}

impl View for ScanScheduler {
    type V = ScanView;

    closed spec fn view(&self) -> ScanView {
        ScanView {
            pending: self.requests@,
            direction: self.direction,
            max_cylinder: self.max_cylinder,
        }
    }
}

impl ScanScheduler {
    /// A scheduler without requests for a disk whose last cylinder is
    /// `max_cylinder`, with the head sweeping in `initial_direction`.
    pub fn new(max_cylinder: usize, initial_direction: ScanDirection) -> (s: Self)
        ensures
            s@ == (ScanView {
                pending: Seq::empty(),
                direction: initial_direction,
                max_cylinder,
            }),
    {
        Self { requests: Vec::new(), direction: initial_direction, max_cylinder }
    }

    /// Orders the requests by cylinder; requests for the same cylinder stay
    /// in their order.
    fn sort_requests(&mut self)
        ensures
            final(self)@ == (ScanView { pending: by_cylinder(old(self)@.pending), ..old(self)@ }),
    {
        let mut sorted: Vec<DiskRequest> = Vec::new();
        let mut i: usize = 0;
        while i < self.requests.len()
            invariant
                i <= self.requests.len(),
                sorted@ == by_cylinder(self.requests@.take(i as int)),
                self@ == old(self)@,
            decreases self.requests.len() - i,
        {
            let request: DiskRequest = self.requests[i];
            proof {
                lemma_by_cylinder(self.requests@.take(i as int));
                assert(self.requests@.take(i + 1).drop_last() =~= self.requests@.take(i as int));
                assert(self.requests@.take(i + 1).last() == request);
            }
            let mut place: usize = sorted.len();
            while place > 0 && sorted[place - 1].cylinder > request.cylinder
                invariant
                    place <= sorted.len(),
                    ascending(sorted@),
                    forall|k: int|
                        place <= k < sorted.len() ==> (#[trigger] sorted@[k]).cylinder
                            > request.cylinder,
                decreases place,
            {
                place -= 1;
            }
            proof {
                assert forall|k: int| 0 <= k < place implies (#[trigger] sorted@[k]).cylinder
                    <= request.cylinder by {
                    assert(sorted@[k].cylinder <= sorted@[place - 1].cylinder);
                }
                lemma_not_above_unique(sorted@, request.cylinder, place as int);
            }
            sorted.insert(place, request);
            i += 1;
        }
        proof {
            assert(self.requests@.take(i as int) =~= self.requests@);
        }
        self.requests = sorted;
    }
}

impl DiskScheduler for ScanScheduler {
    closed spec fn pending(&self) -> Seq<DiskRequest> {
        self.requests@
    }

    open spec fn label(&self) -> Seq<char> {
        "SCAN"@
    }

    fn add_request(&mut self, request: DiskRequest)
        ensures
            final(self)@ == (ScanView {
                pending: old(self)@.pending.push(request),
                ..old(self)@
            }),
            final(self).pending() == final(self)@.pending,
    {
        broadcast use to_multiset_build;

        self.requests.push(request);
    }

    fn next_request(&mut self, current_position: usize) -> (next: Option<DiskRequest>)
        ensures
            final(self).pending() == final(self)@.pending,
            match next {
                Some(request) => exists|i: int|
                    {
                        &&& 0 <= i < old(self)@.pending.len()
                        &&& old(self)@.takes(current_position, i, final(self)@.direction)
                        &&& request == by_cylinder(old(self)@.pending)[i]
                        &&& final(self)@.pending == by_cylinder(old(self)@.pending).remove(i)
                        &&& final(self)@.max_cylinder == old(self)@.max_cylinder
                    },
                None => old(self)@.pending.len() == 0 && final(self)@ == old(self)@,
            },
    {
        broadcast use to_multiset_remove;

        if self.requests.len() == 0 {
            return None;
        }
        let ghost before = self@;
        let ghost sorted = by_cylinder(before.pending);
        proof {
            lemma_by_cylinder(before.pending);
        }
        self.sort_requests();
        let len: usize = self.requests.len();
        match self.direction {
            ScanDirection::Up => {
                // The nearest request ahead of the head.
                let mut idx: usize = 0;
                while idx < len && self.requests[idx].cylinder < current_position
                    invariant
                        idx <= len,
                        len == self.requests.len(),
                        self.requests@ == sorted,
                        forall|j: int| 0 <= j < idx ==> (#[trigger] sorted[j]).cylinder
                            < current_position,
                    decreases len - idx,
                {
                    idx += 1;
                }
                if idx < len {
                    proof {
                        assert(before.is_next_up(current_position, idx as int));
                        assert forall|k: int|
                            before.is_next_up(current_position, k) implies k == idx by {}
                        lemma_taken(before.pending, idx as int);
                    }
                    let request = self.requests.remove(idx);
                    proof {
                        assert(before.takes(current_position, idx as int, self@.direction));
                    }
                    return Some(request);
                }
                proof {
                    assert forall|k: int| !before.is_next_up(current_position, k) by {}
                    lemma_taken(before.pending, len - 1);
                    assert(sorted.subrange(0, len - 1) =~= sorted.remove(len - 1));
                }
                // Nothing ahead: turn round.
                self.direction = ScanDirection::Down;
                let last = self.requests.pop();
                proof {
                    assert(before.takes(current_position, len - 1, self@.direction));
                }
                last
            },
            ScanDirection::Down => {
                // The nearest request behind the head.
                let mut idx: usize = len;
                while idx > 0 && self.requests[idx - 1].cylinder > current_position
                    invariant
                        idx <= len,
                        len == self.requests.len(),
                        self.requests@ == sorted,
                        forall|j: int| idx <= j < len ==> (#[trigger] sorted[j]).cylinder
                            > current_position,
                    decreases idx,
                {
                    idx -= 1;
                }
                if idx > 0 {
                    proof {
                        assert(before.is_next_down(current_position, idx - 1));
                        assert forall|k: int|
                            before.is_next_down(current_position, k) implies k == idx - 1 by {}
                        lemma_taken(before.pending, idx - 1);
                    }
                    let request = self.requests.remove(idx - 1);
                    proof {
                        assert(before.takes(current_position, idx - 1, self@.direction));
                    }
                    return Some(request);
                }
                proof {
                    assert forall|k: int| !before.is_next_down(current_position, k) by {}
                    lemma_taken(before.pending, 0);
                }
                // Nothing behind: turn round.
                self.direction = ScanDirection::Up;
                let first = self.requests.remove(0);
                proof {
                    assert(before.takes(current_position, 0, self@.direction));
                }
                Some(first)
            },
        }
    }

    fn is_empty(&self) -> (empty: bool) {
        self.requests.len() == 0
    }

    fn name(&self) -> (name: &str) {
        "SCAN"
    }
}

/// The number of cylinders that the head travels when it starts at
/// `position` and serves `requests` one after the other.
pub open spec fn travel(position: usize, requests: Seq<DiskRequest>) -> int
    decreases requests.len(),
{
    if requests.len() == 0 {
        0
    } else {
        distance(requests[0].cylinder, position) + travel(
            requests[0].cylinder,
            requests.drop_first(),
        )
    }
}

/// The head never travels backwards in the count of its movement.
pub proof fn lemma_travel_not_negative(position: usize, requests: Seq<DiskRequest>)
    ensures
        0 <= travel(position, requests),
    decreases requests.len(),
{
    if requests.len() > 0 {
        lemma_travel_not_negative(requests[0].cylinder, requests.drop_first());
    }
}

/// Serving one more request at the end adds the way from the last cylinder
/// to that of the request.
pub proof fn lemma_travel_push(position: usize, requests: Seq<DiskRequest>, last: DiskRequest)
    ensures
        travel(position, requests.push(last)) == travel(position, requests) + distance(
            last.cylinder,
            if requests.len() == 0 {
                position
            } else {
                requests.last().cylinder
            },
        ),
    decreases requests.len(),
{
    let all = requests.push(last);
    if requests.len() == 0 {
        assert(all.drop_first() =~= Seq::<DiskRequest>::empty());
        assert(travel(last.cylinder, all.drop_first()) == 0);
    } else {
        lemma_travel_push(requests[0].cylinder, requests.drop_first(), last);
        assert(all.drop_first() =~= requests.drop_first().push(last));
        if requests.len() > 1 {
            assert(requests.drop_first().last() == requests.last());
        }
    }
}

/// Where the head and the requests lie at or below cylinder `reach`, the
/// head travels at most `reach` cylinders for each request.
pub proof fn lemma_travel_bound(position: usize, requests: Seq<DiskRequest>, reach: int)
    requires
        position <= reach,
        forall|i: int| 0 <= i < requests.len() ==> (#[trigger] requests[i]).cylinder <= reach,
    ensures
        travel(position, requests) <= requests.len() * reach,
    decreases requests.len(),
{
    if requests.len() > 0 {
        let rest = requests.drop_first();
        assert forall|i: int| 0 <= i < rest.len() implies (#[trigger] rest[i]).cylinder
            <= reach by {
            assert(rest[i] == requests[i + 1]);
        }
        lemma_travel_bound(requests[0].cylinder, rest, reach);
        assert(requests.len() * reach == rest.len() * reach + reach) by (nonlinear_arith)
            requires
                rest.len() == requests.len() - 1,
        ;
    } else {
        assert(requests.len() * reach == 0) by (nonlinear_arith)
            requires
                requests.len() == 0,
        ;
    }
}

/// The way over two runs of requests is the way over the first and, from
/// where that ends, the way over the second.
pub proof fn lemma_travel_concat(position: usize, first: Seq<DiskRequest>, second: Seq<DiskRequest>)
    ensures
        travel(position, first + second) == travel(position, first) + travel(
            if first.len() == 0 {
                position
            } else {
                first.last().cylinder
            },
            second,
        ),
    decreases first.len(),
{
    if first.len() == 0 {
        assert(first + second =~= second);
    } else {
        lemma_travel_concat(first[0].cylinder, first.drop_first(), second);
        assert((first + second).drop_first() =~= first.drop_first() + second);
        if first.len() > 1 {
            assert(first.drop_first().last() == first.last());
        }
    }
}

/// Moving one element from a multiset to another leaves their sum as it was.
pub proof fn lemma_multiset_move(a: Multiset<DiskRequest>, b: Multiset<DiskRequest>, x: DiskRequest)
    requires
        b.count(x) > 0,
    ensures
        a.insert(x).add(b.remove(x)) == a.add(b),
{
    broadcast use vstd::multiset::group_multiset_axioms;

    let moved = a.insert(x).add(b.remove(x));
    assert forall|v: DiskRequest| moved.count(v) == a.add(b).count(v) by {
        if v == x {
            assert(a.insert(x).count(x) == a.count(x) + 1);
            assert(b.remove(x).count(x) == b.count(x) - 1);
        } else {
            assert(a.insert(x).count(v) == a.count(v));
            assert(b.remove(x).count(v) == b.count(v));
        }
    }
    assert(moved =~= a.add(b));
}

/// The mathematical value of a [`DiskSimulator`].
pub struct DiskSimulatorView {
    pub current_position: usize,
    pub total_movement: nat,
    pub requests_served: nat,
    /// The moves of the head, each as the cylinder it left and the one it reached.
    pub history: Seq<(usize, usize)>,
}

impl DiskSimulatorView {
    /// A disk with the head at `position` that has served no request.
    pub open spec fn initial(position: usize) -> DiskSimulatorView {
        DiskSimulatorView {
            current_position: position,
            total_movement: 0,
            requests_served: 0,
            history: Seq::empty(),
        }
    }

    /// The disk after the head has moved to the cylinder of `request`.
    pub open spec fn served(self, request: DiskRequest) -> DiskSimulatorView {
        DiskSimulatorView {
            current_position: request.cylinder,
            total_movement: (self.total_movement + distance(
                request.cylinder,
                self.current_position,
            )) as nat,
            requests_served: self.requests_served + 1,
            history: self.history.push((self.current_position, request.cylinder)),
        }
    }

    /// The disk after the head has served `requests` one after the other.
    pub open spec fn served_all(self, requests: Seq<DiskRequest>) -> DiskSimulatorView
        decreases requests.len(),
    {
        if requests.len() == 0 {
            self
        } else {
            self.served_all(requests.drop_last()).served(requests.last())
        }
    }

    /// Whether the count of the movement stays in range in whatever order
    /// the head serves `waiting`.
    pub open spec fn can_serve(self, waiting: Seq<DiskRequest>) -> bool {
        forall|order: Seq<DiskRequest>|
            #[trigger] order.to_multiset() == waiting.to_multiset() ==> self.total_movement
                + travel(self.current_position, order) <= usize::MAX
    }
}

/// The head that has served `requests` stands at the cylinder of the last,
/// and has travelled the way to each of them in turn.
pub proof fn lemma_served_all(disk: DiskSimulatorView, requests: Seq<DiskRequest>)
    ensures
        disk.served_all(requests).total_movement == disk.total_movement + travel(
            disk.current_position,
            requests,
        ),
        disk.served_all(requests).current_position == (if requests.len() == 0 {
            disk.current_position
        } else {
            requests.last().cylinder
        }),
        disk.served_all(requests).requests_served == disk.requests_served + requests.len(),
        disk.served_all(requests).history.len() == disk.history.len() + requests.len(),
    decreases requests.len(),
{
    if requests.len() > 0 {
        let front = requests.drop_last();
        lemma_served_all(disk, front);
        lemma_travel_push(disk.current_position, front, requests.last());
        lemma_travel_not_negative(disk.current_position, front);
        assert(front.push(requests.last()) =~= requests);
    }
}

/// Where the head and the waiting requests lie at or below cylinder
/// `reach`, and the count of the movement has room for `reach` cylinders for
/// each request, the count stays in range in whatever order the head serves.
pub proof fn lemma_can_serve_within(disk: DiskSimulatorView, waiting: Seq<DiskRequest>, reach: int)
    requires
        disk.current_position <= reach,
        forall|i: int| 0 <= i < waiting.len() ==> (#[trigger] waiting[i]).cylinder <= reach,
        disk.total_movement + waiting.len() * reach <= usize::MAX,
    ensures
        disk.can_serve(waiting),
{
    assert forall|order: Seq<DiskRequest>|
        #[trigger] order.to_multiset() == waiting.to_multiset() implies disk.total_movement
        + travel(disk.current_position, order) <= usize::MAX by {
        to_multiset_len(order);
        to_multiset_len(waiting);
        assert forall|i: int| 0 <= i < order.len() implies (#[trigger] order[i]).cylinder
            <= reach by {
            assert(order.contains(order[i]));
            to_multiset_contains(order, order[i]);
            to_multiset_contains(waiting, order[i]);
            let k = choose|k: int| 0 <= k < waiting.len() && waiting[k] == order[i];
            assert(waiting[k].cylinder <= reach);
        }
        lemma_travel_bound(disk.current_position, order, reach);
    }
}

/// A disk whose head serves requests and keeps count of its movement.
pub struct DiskSimulator {
    current_position: usize,
    total_movement: usize,
    requests_served: usize,
    history: Vec<(usize, usize)>,
}

impl View for DiskSimulator {
    type V = DiskSimulatorView;

    closed spec fn view(&self) -> DiskSimulatorView {
        DiskSimulatorView {
            current_position: self.current_position,
            total_movement: self.total_movement as nat,
            requests_served: self.requests_served as nat,
            history: self.history@,
        }
    }
}

impl DiskSimulator {
    /// The invariant of the simulator: every request served is one move in
    /// the history.
    pub open spec fn wf(&self) -> bool {
        self@.requests_served == self@.history.len()
    }

    /// A disk with the head at `initial_position`.
    pub fn new(initial_position: usize) -> (simulator: Self)
        ensures
            simulator.wf(),
            simulator@ == DiskSimulatorView::initial(initial_position),
    {
        Self {
            current_position: initial_position,
            total_movement: 0,
            requests_served: 0,
            history: Vec::new(),
        }
    }

    /// Serves every waiting request in the order in which `scheduler` hands
    /// them out, each from where the head then stands. Returns the requests
    /// in the order in which they were served.
    pub fn process_all<S: DiskScheduler>(&mut self, scheduler: &mut S) -> (served: Vec<
        DiskRequest,
    >)
        requires
            old(self).wf(),
            old(self)@.can_serve(old(scheduler).pending()),
        ensures
            final(self).wf(),
            final(scheduler).pending().len() == 0,
            served@.to_multiset() == old(scheduler).pending().to_multiset(),
            final(self)@ == old(self)@.served_all(served@),
    {
        broadcast use {
            to_multiset_build,
            to_multiset_len,
            to_multiset_contains,
            vstd::multiset::group_multiset_axioms,
        };

        let ghost waiting = scheduler.pending();
        let mut served: Vec<DiskRequest> = Vec::new();
        proof {
            assert(served@.to_multiset().add(waiting.to_multiset()) =~= waiting.to_multiset());
            assert forall|rest: Seq<DiskRequest>|
                #[trigger] rest.to_multiset() == scheduler.pending().to_multiset() implies (
                served@ + rest).to_multiset() == waiting.to_multiset() by {
                assert(served@ + rest =~= rest);
            }
        }
        while !scheduler.is_empty()
            invariant
                self.wf(),
                old(self)@.can_serve(waiting),
                forall|rest: Seq<DiskRequest>|
                    #[trigger] rest.to_multiset() == scheduler.pending().to_multiset() ==> (
                    served@ + rest).to_multiset() == waiting.to_multiset(),
                served@.to_multiset().add(scheduler.pending().to_multiset())
                    == waiting.to_multiset(),
                self@ == old(self)@.served_all(served@),
            decreases scheduler.pending().len(),
        {
            let ghost left = scheduler.pending();
            let ghost done = served@;
            if let Some(request) = scheduler.next_request(self.current_position) {
                proof {
                    let rest = scheduler.pending();
                    to_multiset_contains(left, request);
                    lemma_multiset_move(done.to_multiset(), left.to_multiset(), request);
                    // Whatever comes after this request, the way up to and
                    // including it is part of a way that stays in range.
                    let order = done.push(request) + rest;
                    to_multiset_build(done, request);
                    vstd::seq_lib::lemma_multiset_commutative(done.push(request), rest);
                    assert(order.to_multiset() == waiting.to_multiset());
                    lemma_served_all(old(self)@, done);
                    lemma_travel_concat(old(self)@.current_position, done.push(request), rest);
                    lemma_travel_push(old(self)@.current_position, done, request);
                    lemma_travel_not_negative(request.cylinder, rest);
                    assert forall|later: Seq<DiskRequest>|
                        #[trigger] later.to_multiset() == rest.to_multiset() implies (done.push(
                        request,
                    ) + later).to_multiset() == waiting.to_multiset() by {
                        vstd::seq_lib::lemma_multiset_commutative(done.push(request), later);
                    }
                    assert(done.push(request).drop_last() =~= done);
                }
                self.serve_request(request);
                served.push(request);
            }
        }
        proof {
            assert(scheduler.pending().to_multiset() =~= Multiset::<DiskRequest>::empty());
            assert(served@.to_multiset() =~= waiting.to_multiset());
        }
        served
    }

    /// Moves the head to the cylinder of `request` and counts the move.
    fn serve_request(&mut self, request: DiskRequest)
        requires
            old(self).wf(),
            old(self)@.total_movement + distance(request.cylinder, old(self)@.current_position)
                <= usize::MAX,
        ensures
            final(self).wf(),
            final(self)@ == old(self)@.served(request),
    {
        let movement: usize = if request.cylinder > self.current_position {
            request.cylinder - self.current_position
        } else {
            self.current_position - request.cylinder
        };
        self.history.push((self.current_position, request.cylinder));
        assert(self.history@.len() == self.history.len());
        self.total_movement += movement;
        self.current_position = request.cylinder;
        self.requests_served += 1;
    }

    /// The number of cylinders that the head has travelled.
    pub fn total_movement(&self) -> (movement: usize)
        ensures
            movement == self@.total_movement,
    {
        self.total_movement
    }

    /// The cylinder at which the head stands.
    pub fn current_position(&self) -> (position: usize)
        ensures
            position == self@.current_position,
    {
        self.current_position
    }

    /// The number of requests that the head has served.
    pub fn requests_served(&self) -> (served: usize)
        ensures
            served == self@.requests_served,
    {
        self.requests_served
    }

    /// The moves of the head, each as the cylinder it left and the one it reached.
    pub fn history(&self) -> (history: &Vec<(usize, usize)>)
        ensures
            history@ == self@.history,
    {
        &self.history
    }

    /// Puts the head at `initial_position` and forgets what was served.
    pub fn reset(&mut self, initial_position: usize)
        ensures
            final(self).wf(),
            final(self)@ == DiskSimulatorView::initial(initial_position),
    {
        self.current_position = initial_position;
        self.total_movement = 0;
        self.requests_served = 0;
        self.history.clear();
    }
}

} // verus!
