//! Numbered permits.
use tokio::sync::Semaphore;
use vstd::prelude::*;

use crate::options::MAX_PERMITS;

verus! {

/// `tokio::sync::Semaphore`, seen only through the names and functions below.
#[verifier::external_type_specification]
#[verifier::external_body]
pub struct ExSemaphore(Semaphore);

/// How many permits a semaphore has to give: `tokio::sync::Semaphore::available_permits`.
pub uninterp spec fn free_permits(semaphore: Semaphore) -> nat;

/// Whether a semaphore was closed: `tokio::sync::Semaphore::is_closed`.
pub uninterp spec fn shut(semaphore: Semaphore) -> bool;

/// Calls `tokio::sync::Semaphore::new`, which makes an open semaphore with that many permits and
/// panics above its limit.
#[verifier::external_body]
fn new_semaphore(permits: usize) -> (semaphore: Semaphore)
    requires
        permits <= MAX_PERMITS,
    ensures
        free_permits(semaphore) == permits,
        !shut(semaphore),
{
    Semaphore::new(permits)
}

/// Calls `tokio::sync::Semaphore::try_acquire`, which takes a permit from an open semaphore if and
/// only if it has one to give. The permit is kept by forgetting its guard, so the count stays down.
/// The semaphore is borrowed mutably: nobody else can take or return a permit meanwhile.
#[verifier::external_body]
fn take_permit(semaphore: &mut Semaphore) -> (taken: bool)
    requires
        !shut(*old(semaphore)),
    ensures
        taken == (free_permits(*old(semaphore)) > 0),
        taken ==> free_permits(*final(semaphore)) == free_permits(*old(semaphore)) - 1,
        !taken ==> free_permits(*final(semaphore)) == free_permits(*old(semaphore)),
        !shut(*final(semaphore)),
{
    match semaphore.try_acquire() {
        Ok(permit) => {
            permit.forget();
            true
        },
        Err(_) => false,
    }
}

/// Calls `tokio::sync::Semaphore::add_permits` with one permit. It panics above the limit. With no
/// one waiting for a permit, and nobody can be while the semaphore is borrowed mutably, the count
/// goes up by one.
#[verifier::external_body]
fn return_permit(semaphore: &mut Semaphore)
    requires
        free_permits(*old(semaphore)) < MAX_PERMITS,
        !shut(*old(semaphore)),
    ensures
        free_permits(*final(semaphore)) == free_permits(*old(semaphore)) + 1,
        !shut(*final(semaphore)),
{
    semaphore.add_permits(1)
}

/// Whether `number` is the least that is not held.
pub open spec fn is_lowest_free(number: usize, held: Set<usize>) -> bool {
    &&& !held.contains(number)
    &&& forall|other: usize| other < number ==> #[trigger] held.contains(other)
}

/// The least number that is not held.
pub open spec fn lowest_free(held: Set<usize>) -> usize {
    choose|number: usize| is_lowest_free(number, held)
}

/// A set that holds every number below `n` has at least `n` members.
proof fn lemma_initial_segment(held: Set<usize>, n: nat)
    requires
        held.finite(),
        n <= usize::MAX + 1,
        forall|other: usize| other < n ==> #[trigger] held.contains(other),
    ensures
        n <= held.len(),
    decreases n,
{
    if n > 0 {
        let top = (n - 1) as usize;
        let rest = held.remove(top);
        assert(held.contains(top));
        assert forall|other: usize| other < n - 1 implies #[trigger] rest.contains(other) by {
            assert(held.contains(other));
        }
        lemma_initial_segment(rest, (n - 1) as nat);
    }
}

/// There is one least number that is not held, and it is no larger than the number of permits
/// held.
pub proof fn lemma_lowest_free(held: Set<usize>)
    requires
        held.finite(),
        held.len() < usize::MAX,
    ensures
        is_lowest_free(lowest_free(held), held),
        lowest_free(held) <= held.len(),
        forall|number: usize| #[trigger]
            is_lowest_free(number, held) ==> number == lowest_free(held),
{
    lemma_lowest_free_from(held, 0);
    let least = lowest_free(held);
    lemma_initial_segment(held, least as nat);
    assert forall|number: usize| #[trigger] is_lowest_free(number, held) implies number
        == least by {
        if number < least {
            assert(held.contains(number));
        } else if least < number {
            assert(held.contains(least));
        }
    }
}

proof fn lemma_lowest_free_from(held: Set<usize>, from: usize)
    requires
        held.finite(),
        held.len() < usize::MAX,
        forall|other: usize| other < from ==> #[trigger] held.contains(other),
    ensures
        exists|number: usize| is_lowest_free(number, held),
    decreases usize::MAX - from,
{
    if held.contains(from) {
        lemma_initial_segment(held, from as nat + 1);
        lemma_lowest_free_from(held, (from + 1) as usize);
    } else {
        assert(is_lowest_free(from, held));
    }
}

/// A fixed number of permits, each of which goes by a number while it is held. Whoever asks gets
/// the least number that nobody holds.
pub struct Permits {
    semaphore: Semaphore,
    held: Vec<usize>,
    limit: usize,
}

impl View for Permits {
    type V = Set<usize>;

    /// The numbers of the permits that are held.
    closed spec fn view(&self) -> Set<usize> {
        self.held@.to_set()
    }
}

impl Permits {
    /// What holds of permits at all times: the semaphore has to give what is not held, and no
    /// number is held twice.
    pub closed spec fn wf(self) -> bool {
        &&& self.limit <= MAX_PERMITS
        &&& !shut(self.semaphore)
        &&& free_permits(self.semaphore) + self.held@.len() == self.limit
        &&& self.held@.no_duplicates()
    }

    /// How many permits there are.
    pub closed spec fn limit(self) -> usize {
        self.limit
    }

    /// No more permits are held than there are.
    pub proof fn lemma_bounded(self)
        requires
            self.wf(),
        ensures
            self@.finite(),
            self@.len() <= self.limit() <= MAX_PERMITS,
    {
        self.held@.unique_seq_to_set();
        vstd::seq_lib::seq_to_set_is_finite(self.held@);
    }

    /// That many permits, none of which is held.
    pub fn new(limit: usize) -> (permits: Permits)
        requires
            limit <= MAX_PERMITS,
        ensures
            permits.wf(),
            permits.limit() == limit,
            permits@ == Set::<usize>::empty(),
    {
        Permits { semaphore: new_semaphore(limit), held: Vec::new(), limit }
    }

    /// Takes a permit, if one is left, and gives it the least number that nobody holds.
    pub fn try_acquire(&mut self) -> (permit: Option<usize>)
        requires
            old(self).wf(),
        ensures
            final(self).wf(),
            final(self).limit() == old(self).limit(),
            permit is Some <==> old(self)@.len() < old(self).limit(),
            match permit {
                Some(number) => {
                    &&& number == lowest_free(old(self)@)
                    &&& !old(self)@.contains(number)
                    &&& final(self)@ == old(self)@.insert(number)
                },
                None => final(self)@ == old(self)@,
            },
    {
        proof {
            self.lemma_bounded();
            self.held@.unique_seq_to_set();
        }
        if !take_permit(&mut self.semaphore) {
            return None;
        }
        let number: usize = self.least_unused();
        let ghost before = self.held@;
        self.held.push(number);
        proof {
            assert(!before.contains(number));
            assert(self.held@.to_set() =~= before.to_set().insert(number)) by {
                assert(self.held@.last() == number);
                assert forall|n: usize| before.contains(n) implies self.held@.contains(n) by {
                    let i = choose|i: int| 0 <= i < before.len() && before[i] == n;
                    assert(self.held@[i] == n);
                }
            }
        }
        Some(number)
    }

    /// Returns the permit with the given number.
    pub fn release(&mut self, number: usize)
        requires
            old(self).wf(),
            old(self)@.contains(number),
        ensures
            final(self).wf(),
            final(self).limit() == old(self).limit(),
            final(self)@ == old(self)@.remove(number),
    {
        let count: usize = self.held.len();
        let mut i: usize = 0;
        while self.held[i] != number
            invariant
                i < count,
                count == self.held@.len(),
                self.held@.contains(number),
                forall|j: int| 0 <= j < i ==> self.held@[j] != number,
            decreases self.held@.len() - i,
        {
            i = i + 1;
        }
        let ghost before = self.held@;
        self.held.remove(i);
        return_permit(&mut self.semaphore);
        proof {
            assert(self.held@.to_set() =~= before.to_set().remove(number)) by {
                assert forall|n: usize| n != number && before.contains(n) implies self.held@.contains(
                    n,
                ) by {
                    let k = choose|k: int| 0 <= k < before.len() && before[k] == n;
                    if k < i {
                        assert(self.held@[k] == n);
                    } else {
                        assert(self.held@[k - 1] == n);
                    }
                }
            }
        }
    }

    /// The least number that nobody holds.
    fn least_unused(&self) -> (number: usize)
        requires
            self.held@.no_duplicates(),
            self.held@.len() < usize::MAX,
        ensures
            number == lowest_free(self@),
            !self.held@.contains(number),
    {
        let mut number: usize = 0;
        proof {
            self.held@.unique_seq_to_set();
            vstd::seq_lib::seq_to_set_is_finite(self.held@);
            lemma_lowest_free(self@);
        }
        while self.is_held(number)
            invariant
                self@.finite(),
                self@.len() < usize::MAX,
                forall|other: usize| other < number ==> #[trigger] self@.contains(other),
            decreases usize::MAX - number,
        {
            proof {
                lemma_initial_segment(self@, number as nat + 1);
            }
            number = number + 1;
        }
        assert(is_lowest_free(number, self@));
        number
    }

    fn is_held(&self, number: usize) -> (held: bool)
        ensures
            held == self@.contains(number),
    {
        let mut i: usize = 0;
        while i < self.held.len()
            invariant
                i <= self.held@.len(),
                forall|j: int| 0 <= j < i ==> self.held@[j] != number,
            decreases self.held@.len() - i,
        {
            if self.held[i] == number {
                return true;
            }
            i = i + 1;
        }
        false
    }
}

} // verus!
