//! Reinsertion: whether an entry of a reclaimed region goes back into the
//! store, and the policy that lets entries back at a bounded rate.

use vstd::prelude::*;

verus! {

/// Whether every reinsertion policy accepts.
pub open spec fn spec_all_accept(verdicts: Seq<bool>) -> bool {
    forall|i: int| 0 <= i < verdicts.len() ==> verdicts[i]
}

/// Whether an entry is reinserted, given what the reinsertion policies judge
/// of it: it is where all of them accept.
pub fn all_accept(verdicts: &[bool]) -> (accept: bool)
    ensures
        accept == spec_all_accept(verdicts@),
{
    let mut i: usize = 0;
    while i < verdicts.len()
        invariant
            i <= verdicts@.len(),
            forall|j: int| 0 <= j < i ==> verdicts@[j],
        decreases verdicts@.len() - i,
    {
        if !verdicts[i] {
            return false;
        }
        i += 1;
    }
    true
}

/// What the rated ticket policy makes of one judgement.
#[derive(Debug, Clone, Copy, PartialEq, Eq, Structural)]
pub struct RatedJudgement {
    /// Whether the entry is accepted.
    pub accept: bool,
    /// The number of bytes to charge the ticket with: what was reinserted
    /// since the policy last charged it.
    pub charge: usize,
}

/// Accepts entries as long as a ticket that refills at `rate` bytes per second
/// has quota left. The ticket itself runs on the clock and is kept by the
/// caller; the policy keeps count of what it has charged to it.
#[derive(Debug)]
pub struct RatedTicketReinsertionPolicy {
    rate: usize,
    last: usize,
}

impl RatedTicketReinsertionPolicy {
    /// The rate of the ticket, in bytes per second.
    pub closed spec fn spec_rate(&self) -> usize {
        self.rate
    }

    /// The count of reinserted bytes up to which the ticket has been charged.
    pub closed spec fn last(&self) -> usize {
        self.last
    }

    pub fn new(rate: usize) -> (policy: Self)
        ensures
            policy.spec_rate() == rate,
            policy.last() == 0,
    {
        RatedTicketReinsertionPolicy { rate, last: 0 }
    }

    #[verifier::when_used_as_spec(spec_rate)]
    pub fn rate(&self) -> (rate: usize)
        ensures
            rate == self.spec_rate(),
    {
        self.rate
    }

    /// Judges an entry. `probe` says whether the ticket has quota left, and
    /// `reinserted` how many bytes have been reinserted in all. The entry is
    /// accepted where the ticket has quota, and the ticket is to be charged
    /// with the bytes that were reinserted since the last charge.
    pub fn judge(&mut self, probe: bool, reinserted: usize) -> (judgement: RatedJudgement)
        ensures
            final(self).spec_rate() == old(self).spec_rate(),
            judgement.accept == probe,
            judgement.charge == if reinserted > old(self).last() {
                (reinserted - old(self).last()) as usize
            } else {
                0
            },
            final(self).last() == if reinserted > old(self).last() {
                reinserted
            } else {
                old(self).last()
            },
    {
        let charge = if reinserted > self.last {
            reinserted - self.last
        } else {
            0
        };
        if charge > 0 {
            self.last = reinserted;
        }
        RatedJudgement { accept: probe, charge }
    }
}

} // verus!
