//! Worker-pool sizes of multithreaded system guests.
//!
//! A guest's pool size is its configured override, clamped to at least one
//! worker (a pool without a worker would have no thread to run the guest);
//! a guest without an override gets the default, the number of available
//! CPU cores.
use vstd::prelude::*;

verus! {

/// The overrides a list of entries holds: a later entry for a name
/// replaces an earlier one.
pub open spec fn counts_map(s: Seq<(String, usize)>) -> Map<Seq<char>, usize>
    decreases s.len(),
{
    if s.len() == 0 {
        Map::empty()
    } else {
        counts_map(s.drop_last()).insert(s.last().0@, s.last().1)
    }
}

proof fn lemma_counts_push(s: Seq<(String, usize)>, e: (String, usize))
    ensures
        counts_map(s.push(e)) == counts_map(s).insert(e.0@, e.1),
{
    assert(s.push(e).drop_last() =~= s);
}

/// The configured worker-pool sizes, by guest name.
#[derive(Debug)]
pub struct WorkerCounts {
    entries: Vec<(String, usize)>,
}

/// Every size in the list is at least one.
pub open spec fn all_positive(s: Seq<(String, usize)>) -> bool {
    forall|i: int| 0 <= i < s.len() ==> #[trigger] s[i].1 >= 1
}

proof fn lemma_counts_positive(s: Seq<(String, usize)>, name: Seq<char>)
    requires
        all_positive(s),
        counts_map(s).contains_key(name),
    ensures
        counts_map(s)[name] >= 1,
    decreases s.len(),
{
    let d = s.drop_last();
    assert(all_positive(d)) by {
        assert forall|i: int| 0 <= i < d.len() implies #[trigger] d[i].1 >= 1 by {
            assert(d[i] == s[i]);
        }
    }
    if s.last().0@ != name {
        lemma_counts_positive(d, name);
    } else {
        assert(s.last() == s[s.len() - 1]);
    }
}

impl Default for WorkerCounts {
    fn default() -> (r: Self)
        ensures
            r@ == Map::<Seq<char>, usize>::empty(),
    {
        WorkerCounts::new()
    }
}

impl View for WorkerCounts {
    type V = Map<Seq<char>, usize>;

    closed spec fn view(&self) -> Map<Seq<char>, usize> {
        counts_map(self.entries@)
    }
}

impl WorkerCounts {
    #[verifier::type_invariant]
    closed spec fn inv(&self) -> bool {
        all_positive(self.entries@)
    }

    /// No overrides.
    pub fn new() -> (r: Self)
        ensures
            r@ == Map::<Seq<char>, usize>::empty(),
    {
        WorkerCounts { entries: Vec::new() }
    }

    /// Configure the pool size of the named guest, at least one worker.
    pub fn set_worker_count(&mut self, guest_name: &str, count: usize)
        ensures
            final(self)@ == old(self)@.insert(
                guest_name@,
                if count == 0 {
                    1
                } else {
                    count
                },
            ),
    {
        let clamped = if count == 0 {
            1
        } else {
            count
        };
        proof {
            use_type_invariant(&*self);
        }
        let mut entries: Vec<(String, usize)> = Vec::new();
        std::mem::swap(&mut entries, &mut self.entries);
        let ghost before = entries@;
        let entry = (guest_name.to_owned(), clamped);
        let ghost pushed = entry;
        entries.push(entry);
        proof {
            lemma_counts_push(before, pushed);
            assert forall|i: int| 0 <= i < entries@.len() implies #[trigger] entries@[i].1 >= 1 by {
                if i < before.len() {
                    assert(entries@[i] == before[i]);
                }
            }
        }
        self.entries = entries;
    }

    /// The pool size of the named guest: its override, or `default` (the
    /// number of available cores, at least one).
    pub fn worker_count_for(&self, guest_name: &str, default: usize) -> (r: usize)
        requires
            default >= 1,
        ensures
            r >= 1,
            r == if self@.contains_key(guest_name@) {
                self@[guest_name@]
            } else {
                default
            },
    {
        let key = guest_name.to_owned();
        let ghost s = self.entries@;
        let mut found: Option<usize> = None;
        let mut i: usize = 0;
        while i < self.entries.len()
            invariant
                i <= s.len(),
                s == self.entries@,
                key@ == guest_name@,
                found == (if counts_map(s.subrange(0, i as int)).contains_key(guest_name@) {
                    Some(counts_map(s.subrange(0, i as int))[guest_name@])
                } else {
                    None::<usize>
                }),
            decreases s.len() - i,
        {
            proof {
                assert(s.subrange(0, i + 1) =~= s.subrange(0, i as int).push(s[i as int]));
                lemma_counts_push(s.subrange(0, i as int), s[i as int]);
            }
            if self.entries[i].0 == key {
                found = Some(self.entries[i].1);
            }
            i = i + 1;
        }
        assert(s.subrange(0, s.len() as int) =~= s);
        proof {
            use_type_invariant(self);
            if counts_map(s).contains_key(guest_name@) {
                lemma_counts_positive(s, guest_name@);
            }
        }
        match found {
            Some(c) => c,
            None => default,
        }
    }
}

} // verus!
