//! Interprocess communication: semaphores and what is built on them.
use vstd::prelude::*;
use crate::modules::ipc::sync::{Semaphore, SemaphoreView};

pub mod philosophers;
pub mod sync;

verus! {

broadcast use vstd::string::to_string_from_display_ensures_for_str;

/// A semaphore filed under a name.
struct NamedSemaphore {
    name: String,
    semaphore: Semaphore,
}

/// Whether entry `i` of `entries` is filed under `name`.
spec fn filed(entries: Seq<NamedSemaphore>, name: Seq<char>, i: int) -> bool {
    0 <= i < entries.len() && entries[i].name@ == name
}

/// Whether no name is used twice in `entries`.
spec fn distinct(entries: Seq<NamedSemaphore>) -> bool {
    forall|i: int, j: int|
        0 <= i < j < entries.len() ==> (#[trigger] entries[i]).name@ != (
        #[trigger] entries[j]).name@
}

/// The semaphores of `entries`, each under its name.
spec fn by_name(entries: Seq<NamedSemaphore>) -> Map<Seq<char>, SemaphoreView> {
    Map::new(
        |name: Seq<char>| exists|i: int| filed(entries, name, i),
        |name: Seq<char>| entries[choose|i: int| filed(entries, name, i)].semaphore@,
    )
}

/// The entry under a name is the only one with that name.
proof fn lemma_filed(entries: Seq<NamedSemaphore>, name: Seq<char>, i: int)
    requires
        distinct(entries),
        filed(entries, name, i),
    ensures
        by_name(entries).contains_key(name),
        by_name(entries)[name] == entries[i].semaphore@,
{
    let k = choose|k: int| filed(entries, name, k);
    if k < i {
        assert(entries[k].name@ != entries[i].name@);
    } else if i < k {
        assert(entries[i].name@ != entries[k].name@);
    }
}

/// Putting another semaphore into an entry changes what is filed under the
/// name of the entry, and nothing else.
proof fn lemma_replaced(entries: Seq<NamedSemaphore>, i: int, semaphore: Semaphore)
    requires
        distinct(entries),
        0 <= i < entries.len(),
    ensures
        distinct(entries.update(i, NamedSemaphore { name: entries[i].name, semaphore })),
        by_name(entries.update(i, NamedSemaphore { name: entries[i].name, semaphore }))
            == by_name(entries).insert(entries[i].name@, semaphore@),
{
    let key = entries[i].name@;
    let after = entries.update(i, NamedSemaphore { name: entries[i].name, semaphore });
    let expected = by_name(entries).insert(key, semaphore@);
    assert forall|a: int, b: int| 0 <= a < b < after.len() implies (#[trigger] after[a]).name@ != (
    #[trigger] after[b]).name@ by {
        assert(entries[a].name@ != entries[b].name@);
    }
    assert forall|n: Seq<char>| #[trigger] by_name(after).contains_key(n) == expected.contains_key(
        n,
    ) by {
        if by_name(entries).contains_key(n) || n == key {
            let k = if n == key {
                i
            } else {
                choose|k: int| filed(entries, n, k)
            };
            assert(filed(after, n, k));
        }
        if by_name(after).contains_key(n) {
            let k = choose|k: int| filed(after, n, k);
            assert(filed(entries, n, k));
        }
    }
    assert forall|n: Seq<char>| #[trigger] by_name(after).contains_key(n) implies by_name(after)[n]
        == expected[n] by {
        let k = choose|k: int| filed(after, n, k);
        lemma_filed(after, n, k);
        if n != key {
            assert(filed(entries, n, k));
            lemma_filed(entries, n, k);
        } else {
            lemma_filed(after, n, i);
        }
    }
    assert(by_name(after) =~= expected);
}

/// A new entry under a name that is not in use adds what it files, and
/// changes nothing else.
proof fn lemma_added(entries: Seq<NamedSemaphore>, entry: NamedSemaphore)
    requires
        distinct(entries),
        forall|i: int| !filed(entries, entry.name@, i),
    ensures
        distinct(entries.push(entry)),
        by_name(entries.push(entry)) == by_name(entries).insert(entry.name@, entry.semaphore@),
{
    let key = entry.name@;
    let after = entries.push(entry);
    let last = entries.len() as int;
    let expected = by_name(entries).insert(key, entry.semaphore@);
    assert forall|a: int, b: int| 0 <= a < b < after.len() implies (#[trigger] after[a]).name@ != (
    #[trigger] after[b]).name@ by {
        if b == last {
            assert(!filed(entries, key, a));
        } else {
            assert(entries[a].name@ != entries[b].name@);
        }
    }
    assert forall|n: Seq<char>| #[trigger] by_name(after).contains_key(n) == expected.contains_key(
        n,
    ) by {
        if by_name(entries).contains_key(n) || n == key {
            let k = if n == key {
                last
            } else {
                choose|k: int| filed(entries, n, k)
            };
            assert(filed(after, n, k));
        }
        if by_name(after).contains_key(n) && n != key {
            let k = choose|k: int| filed(after, n, k);
            assert(filed(entries, n, k));
        }
    }
    assert forall|n: Seq<char>| #[trigger] by_name(after).contains_key(n) implies by_name(after)[n]
        == expected[n] by {
        let k = choose|k: int| filed(after, n, k);
        lemma_filed(after, n, k);
        if n != key {
            assert(filed(entries, n, k));
            lemma_filed(entries, n, k);
        } else {
            lemma_filed(after, n, last);
        }
    }
    assert(by_name(after) =~= expected);
}

/// Semaphores by name.
pub struct IpcRegistry {
    sems: Vec<NamedSemaphore>,
}

impl View for IpcRegistry {
    type V = Map<Seq<char>, SemaphoreView>;

    closed spec fn view(&self) -> Map<Seq<char>, SemaphoreView> {
        by_name(self.sems@)
    }
}

impl IpcRegistry {
    /// Whether no name is used twice.
    pub closed spec fn wf(&self) -> bool {
        distinct(self.sems@)
    }

    /// A registry without semaphores.
    pub fn new() -> (registry: Self)
        ensures
            registry.wf(),
            registry@ == Map::<Seq<char>, SemaphoreView>::empty(),
    {
        let registry = Self { sems: Vec::new() };
        assert(registry@ =~= Map::<Seq<char>, SemaphoreView>::empty());
        registry
    }

    /// Index of the entry under `name`.
    fn position(&self, name: &String) -> (found: Option<usize>)
        ensures
            match found {
                Some(i) => filed(self.sems@, name@, i as int),
                None => forall|i: int| !filed(self.sems@, name@, i),
            },
    {
        let mut i: usize = 0;
        while i < self.sems.len()
            invariant
                i <= self.sems.len(),
                forall|k: int| 0 <= k < i ==> !filed(self.sems@, name@, k),
            decreases self.sems.len() - i,
        {
            if self.sems[i].name == *name {
                return Some(i);
            }
            i += 1;
        }
        None
    }

    /// Files a semaphore with the given count under `name`, in the place of
    /// the one that was there, if any.
    pub fn create_semaphore(&mut self, name: String, initial_value: i32)
        requires
            old(self).wf(),
        ensures
            final(self).wf(),
            final(self)@ == old(self)@.insert(name@, SemaphoreView::fresh(initial_value, name@)),
    {
        let semaphore = Semaphore::new(initial_value, name.as_str());
        match self.position(&name) {
            Some(i) => {
                proof {
                    lemma_replaced(self.sems@, i as int, semaphore);
                }
                self.sems[i].semaphore = semaphore;
            },
            None => {
                let entry = NamedSemaphore { name, semaphore };
                proof {
                    lemma_added(self.sems@, entry);
                }
                self.sems.push(entry);
            },
        }
    }

    /// The semaphore under `name`, to work on in place. What the caller
    /// leaves in it is what the registry holds under `name` afterwards.
    pub fn get_semaphore(&mut self, name: &str) -> (found: Option<&mut Semaphore>)
        requires
            old(self).wf(),
        ensures
            final(self).wf(),
            match found {
                Some(semaphore) => {
                    &&& old(self)@.contains_key(name@)
                    &&& (*semaphore)@ == old(self)@[name@]
                    &&& final(self)@ == old(self)@.insert(name@, (*final(semaphore))@)
                },
                None => !old(self)@.contains_key(name@) && final(self)@ == old(self)@,
            },
    {
        let key: String = name.to_string();
        match self.position(&key) {
            Some(i) => {
                proof {
                    let entries = self.sems@;
                    lemma_filed(entries, name@, i as int);
                    assert forall|s: Semaphore|
                        distinct(
                            #[trigger] entries.update(
                                i as int,
                                NamedSemaphore { name: entries[i as int].name, semaphore: s },
                            ),
                        ) && by_name(
                            entries.update(
                                i as int,
                                NamedSemaphore { name: entries[i as int].name, semaphore: s },
                            ),
                        ) == by_name(entries).insert(name@, s@) by {
                        lemma_replaced(entries, i as int, s);
                    }
                }
                Some(&mut self.sems[i].semaphore)
            },
            None => None,
        }
    }
}

} // verus!
