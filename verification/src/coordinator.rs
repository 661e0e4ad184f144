//! Generation coordinator.
//!
//! The coordinator owns the registry of keys whose generation is currently
//! in flight.  Acquiring a key assigns exactly one caller the generator
//! role: the first caller for an absent key becomes the generator and the
//! key enters the registry; every caller that finds the key present becomes
//! a waiter.  Releasing a key removes it, whatever the generation's
//! outcome, so that woken waiters never observe it as still in flight.
//!
//! The registry itself is the only shared state of the system; the caller
//! wraps it in whatever lock and wake handle the runtime offers and holds
//! the lock only across these operations.

use vstd::prelude::*;

verus! {

/// The role assigned to a caller acquiring a key.
#[derive(Clone, Copy, Debug, PartialEq, Eq, Structural)]
pub enum Role {
    /// This caller must run the generation and release the key afterwards.
    Generator,
    /// A generation for the key is already in flight; this caller waits for
    /// its release and then re-enters.
    Waiter,
}

/// What acquiring a key does: the key is in flight afterwards, and the
/// caller is the generator exactly when no generation for it was in flight
/// before.
pub open spec fn acquire_spec(in_flight: Set<Seq<char>>, key: Seq<char>) -> (
    Set<Seq<char>>,
    bool,
) {
    (in_flight.insert(key), !in_flight.contains(key))
}

/// Registry of the keys whose generation is in flight.
pub struct Coordinator {
    keys: Vec<String>,
}

impl Coordinator {
    /// The registry holds each key at most once.
    pub closed spec fn wf(&self) -> bool {
        forall|i: int, j: int|
            0 <= i < j < self.keys@.len() ==> self.keys@[i]@ != self.keys@[j]@
    }

    /// The set of keys whose generation is in flight.
    pub closed spec fn in_flight(&self) -> Set<Seq<char>> {
        Set::new(
            |k: Seq<char>|
                exists|i: int| 0 <= i < self.keys@.len() && self.keys@[i]@ == k,
        )
    }

    /// A fresh coordinator: nothing is in flight.
    pub fn new() -> (c: Coordinator)
        ensures
            c.wf(),
            c.in_flight() == Set::<Seq<char>>::empty(),
    {
        let c = Coordinator { keys: Vec::new() };
        proof {
            assert(c.in_flight() =~= Set::<Seq<char>>::empty());
        }
        c
    }

    /// Whether a generation for `key` is in flight.
    pub fn contains(&self, key: &String) -> (r: bool)
        requires
            self.wf(),
        ensures
            r == self.in_flight().contains(key@),
    {
        let mut i: usize = 0;
        while i < self.keys.len()
            invariant
                i <= self.keys@.len(),
                forall|j: int| 0 <= j < i ==> self.keys@[j]@ != key@,
            decreases self.keys@.len() - i,
        {
            if self.keys[i] == *key {
                return true;
            }
            i += 1;
        }
        false
    }

    /// Acquire `key`.  Afterwards the key is in flight; the caller is the
    /// generator exactly when it was not in flight before.
    pub fn acquire(&mut self, key: &String) -> (r: Role)
        requires
            old(self).wf(),
        ensures
            final(self).wf(),
            final(self).in_flight() == acquire_spec(old(self).in_flight(), key@).0,
            (r is Generator) == acquire_spec(old(self).in_flight(), key@).1,
    {
        let mut i: usize = 0;
        while i < self.keys.len()
            invariant
                old(self).wf(),
                self == old(self),
                i <= self.keys@.len(),
                forall|j: int| 0 <= j < i ==> self.keys@[j]@ != key@,
            decreases self.keys@.len() - i,
        {
            if self.keys[i] == *key {
                proof {
                    assert(old(self).in_flight().contains(key@));
                    assert(final(self).in_flight() =~= old(self).in_flight().insert(key@));
                }
                return Role::Waiter;
            }
            i += 1;
        }
        self.keys.push(key.clone());
        proof {
            let pre = old(self).keys@;
            assert(self.keys@ == pre.push(*key));
            assert(forall|j: int| 0 <= j < pre.len() ==> self.keys@[j] == pre[j]);
            assert(!old(self).in_flight().contains(key@));
            assert forall|k: Seq<char>|
                final(self).in_flight().contains(k)
                    == old(self).in_flight().insert(key@).contains(k) by {
                if final(self).in_flight().contains(k) {
                    let i0 = choose|i0: int|
                        0 <= i0 < self.keys@.len() && self.keys@[i0]@ == k;
                    if i0 < pre.len() {
                        assert(old(self).in_flight().contains(k));
                    } else {
                        assert(k == key@);
                    }
                }
                if old(self).in_flight().contains(k) {
                    let i0 = choose|i0: int| 0 <= i0 < pre.len() && pre[i0]@ == k;
                    assert(self.keys@[i0]@ == k);
                }
                if k == key@ {
                    assert(self.keys@[pre.len() as int]@ == k);
                }
            }
            assert(final(self).in_flight() =~= old(self).in_flight().insert(key@));
        }
        Role::Generator
    }

    /// Release `key`: it is no longer in flight.  The caller wakes every
    /// waiter for the key together with this removal, whatever the
    /// generation's outcome.
    pub fn release(&mut self, key: &String)
        requires
            old(self).wf(),
        ensures
            final(self).wf(),
            final(self).in_flight() == old(self).in_flight().remove(key@),
    {
        let mut i: usize = 0;
        while i < self.keys.len()
            invariant
                old(self).wf(),
                self == old(self),
                i <= self.keys@.len(),
                forall|j: int| 0 <= j < i ==> self.keys@[j]@ != key@,
            decreases self.keys@.len() - i,
        {
            if self.keys[i] == *key {
                let ghost pre = self.keys@;
                let ghost i0 = i as int;
                proof {
                    assert(pre[i0]@ == key@);
                }
                self.keys.remove(i);
                proof {
                    assert(self.keys@ == pre.remove(i0));
                    assert(forall|j: int| 0 <= j < i0 ==> self.keys@[j] == pre[j]);
                    assert(forall|j: int|
                        i0 <= j < self.keys@.len() ==> self.keys@[j] == pre[j + 1]);
                    assert forall|k: Seq<char>|
                        final(self).in_flight().contains(k)
                            == old(self).in_flight().remove(key@).contains(k) by {
                        if final(self).in_flight().contains(k) {
                            let j = choose|j: int|
                                0 <= j < self.keys@.len() && self.keys@[j]@ == k;
                            if j < i0 {
                                assert(pre[j]@ == k);
                                assert(k != key@);
                            } else {
                                assert(pre[j + 1]@ == k);
                                assert(pre[i0]@ != pre[j + 1]@);
                                assert(k != key@);
                            }
                        }
                        if old(self).in_flight().contains(k) && k != key@ {
                            let j = choose|j: int| 0 <= j < pre.len() && pre[j]@ == k;
                            assert(j != i0);
                            if j < i0 {
                                assert(self.keys@[j]@ == k);
                            } else {
                                assert(self.keys@[j - 1]@ == k);
                            }
                        }
                    }
                    assert(final(self).in_flight() =~= old(self).in_flight().remove(key@));
                    assert forall|a: int, b: int|
                        0 <= a < b < self.keys@.len() implies self.keys@[a]@
                        != self.keys@[b]@ by {
                        let pa: int = if a < i0 {
                            a
                        } else {
                            a + 1
                        };
                        let pb: int = if b < i0 {
                            b
                        } else {
                            b + 1
                        };
                        assert(self.keys@[a] == pre[pa]);
                        assert(self.keys@[b] == pre[pb]);
                        assert(pre[pa]@ != pre[pb]@);
                    }
                }
                return ;
            }
            i += 1;
        }
        proof {
            assert(!old(self).in_flight().contains(key@));
            assert(final(self).in_flight() =~= old(self).in_flight().remove(key@));
        }
    }
}

/// Coalescing: two acquisitions of one key with no release between them
/// never both yield the generator role; within one outstanding generation
/// the backend is invoked at most once.
pub proof fn lemma_single_generator(in_flight: Set<Seq<char>>, key: Seq<char>)
    ensures
        !acquire_spec(acquire_spec(in_flight, key).0, key).1,
{
}

} // verus!
