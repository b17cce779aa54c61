//! The writer of one entry: it gathers the judgements of the admission
//! policies, and owes every policy that has judged exactly one word of how the
//! entry ended, inserted or dropped.

use crate::catalog::Sequence;
use crate::compress::Compression;
use crate::judge::{spec_admitted, Judges, MAX_JUDGES};
use vstd::prelude::*;

verus! {

/// How an entry ended for an admission policy.
#[derive(Debug, Clone, Copy, PartialEq, Eq, Structural)]
pub enum Terminal {
    /// The entry went into the store.
    Inserted,
    /// The entry was given up.
    Dropped,
}

/// The word that is owed to one admission policy about one entry.
#[derive(Debug, Clone, Copy, PartialEq, Eq, Structural)]
pub struct Notice {
    /// The policy, by its place among the admission policies.
    pub policy: usize,
    pub terminal: Terminal,
    /// What the policy itself had judged.
    pub judge: bool,
}

/// One notice for every policy, in order, each with the policy's own judgement.
pub open spec fn spec_notices(judges: Seq<bool>, terminal: Terminal) -> Seq<Notice> {
    Seq::new(judges.len(), |i: int| Notice { policy: i as usize, terminal, judge: judges[i] })
}

/// Among the notices for an entry every policy is named exactly once.
pub proof fn lemma_each_policy_once(judges: Seq<bool>, terminal: Terminal, policy: int)
    requires
        0 <= policy < judges.len() <= usize::MAX,
    ensures
        spec_notices(judges, terminal)[policy].policy == policy,
        forall|i: int|
            0 <= i < judges.len() && (#[trigger] spec_notices(judges, terminal)[i]).policy
                == policy ==> i == policy,
        forall|i: int|
            0 <= i < judges.len() ==> (#[trigger] spec_notices(judges, terminal)[i]).terminal
                == terminal,
{
}

/// The notices for the judgements in `judges`.
pub fn notices(judges: &Judges, terminal: Terminal) -> (out: Vec<Notice>)
    ensures
        out@ == spec_notices(judges.judges(), terminal),
{
    let mut out: Vec<Notice> = Vec::new();
    let mut i: usize = 0;
    while i < judges.size()
        invariant
            i <= judges.judges().len(),
            out@ == spec_notices(judges.judges().subrange(0, i as int), terminal),
        decreases judges.judges().len() - i,
    {
        out.push(Notice { policy: i, terminal, judge: judges.get(i) });
        i += 1;
        proof {
            assert(out@ =~= spec_notices(judges.judges().subrange(0, i as int), terminal));
        }
    }
    proof {
        assert(judges.judges().subrange(0, i as int) =~= judges.judges());
    }
    out
}

/// What a writer is at one moment.
pub struct WriterState {
    pub key: Seq<u8>,
    pub weight: usize,
    /// The sequence that the entry is to carry, where one is pinned.
    pub sequence: Option<Sequence>,
    pub judges: Seq<bool>,
    pub mask: u64,
    /// Whether the policies have been consulted.
    pub is_judged: bool,
    pub is_skippable: bool,
    pub compression: Compression,
}

impl WriterState {
    /// Whether the entry is admitted as things stand.
    pub open spec fn admitted(self) -> bool {
        spec_admitted(self.judges, self.mask)
    }

    /// The state once the policies have been consulted and have given
    /// `verdicts`: a first consultation records the verdict of each policy,
    /// and against for a policy without one; a later one changes nothing.
    pub open spec fn judged(self, verdicts: Seq<bool>) -> WriterState {
        WriterState {
            judges: if self.is_judged {
                self.judges
            } else {
                Seq::new(self.judges.len(), |i: int| i < verdicts.len() && verdicts[i])
            },
            is_judged: true,
            ..self
        }
    }

    /// What is owed to the policies when the writer ends with `terminal`:
    /// a notice each, whether they have been consulted or not. A policy that
    /// was not consulted is told that it did not judge in favour.
    pub open spec fn owed(self, terminal: Terminal) -> Seq<Notice> {
        spec_notices(self.judges, terminal)
    }
}

/// What dropping a writer leaves to do.
#[derive(Debug)]
pub struct Dropped {
    /// The notices to deliver, one for each policy.
    pub notices: Vec<Notice>,
    /// Whether the entry was turned down by the policies, rather than given up
    /// before they were asked.
    pub filtered: bool,
}

/// The writer of one entry.
#[derive(Debug)]
pub struct GenericStoreWriter {
    key: Vec<u8>,
    weight: usize,
    sequence: Option<Sequence>,
    judges: Judges,
    is_judged: bool,
    is_skippable: bool,
    compression: Compression,
}

impl View for GenericStoreWriter {
    type V = WriterState;

    closed spec fn view(&self) -> WriterState {
        WriterState {
            key: self.key@,
            weight: self.weight,
            sequence: self.sequence,
            judges: self.judges.judges(),
            mask: self.judges.mask(),
            is_judged: self.is_judged,
            is_skippable: self.is_skippable,
            compression: self.compression,
        }
    }
}

impl GenericStoreWriter {
    /// The writer holds no more judgements than a mask has bits.
    pub open spec fn wf(&self) -> bool {
        self@.judges.len() <= MAX_JUDGES
    }

    /// A writer for `key` that `policies` admission policies are to judge.
    pub fn new(key: Vec<u8>, weight: usize, policies: usize, compression: Compression) -> (writer:
        Self)
        requires
            policies <= MAX_JUDGES,
        ensures
            writer.wf(),
            writer@ == (WriterState {
                key: key@,
                weight,
                sequence: None,
                judges: Seq::new(policies as nat, |i: int| false),
                mask: u64::MAX,
                is_judged: false,
                is_skippable: false,
                compression,
            }),
    {
        GenericStoreWriter {
            key,
            weight,
            sequence: None,
            judges: Judges::new(policies),
            is_judged: false,
            is_skippable: false,
            compression,
        }
    }

    pub fn key(&self) -> (key: &Vec<u8>)
        ensures
            key@ == self@.key,
    {
        &self.key
    }

    pub fn weight(&self) -> (weight: usize)
        ensures
            weight == self@.weight,
    {
        self.weight
    }

    /// The number of admission policies that judge the entry.
    pub fn policies(&self) -> (n: usize)
        ensures
            n == self@.judges.len(),
    {
        self.judges.size()
    }

    /// Whether the policies have been consulted.
    pub fn is_judged(&self) -> (judged: bool)
        ensures
            judged == self@.is_judged,
    {
        self.is_judged
    }

    pub fn is_skippable(&self) -> (skippable: bool)
        ensures
            skippable == self@.is_skippable,
    {
        self.is_skippable
    }

    /// The sequence that is pinned for the entry, if any.
    pub fn sequence(&self) -> (sequence: Option<Sequence>)
        ensures
            sequence == self@.sequence,
    {
        self.sequence
    }

    /// Judges whether the entry is admitted. The first call records
    /// `verdicts`, what each policy has judged; later calls answer from what
    /// was recorded then and leave `verdicts` aside.
    pub fn judge(&mut self, verdicts: &[bool]) -> (admitted: bool)
        requires
            old(self).wf(),
        ensures
            final(self).wf(),
            final(self)@ == old(self)@.judged(verdicts@),
            admitted == final(self)@.admitted(),
    {
        if !self.is_judged {
            let ghost before = self.judges.judges();
            let n = self.judges.size();
            let mut i: usize = 0;
            while i < n
                invariant
                    i <= n,
                    n == before.len(),
                    self.judges.judges().len() == n,
                    self.judges.mask() == old(self).judges.mask(),
                    self.key == old(self).key,
                    self.weight == old(self).weight,
                    self.sequence == old(self).sequence,
                    self.is_judged == old(self).is_judged,
                    self.is_skippable == old(self).is_skippable,
                    self.compression == old(self).compression,
                    forall|j: int|
                        0 <= j < i ==> #[trigger] self.judges.judges()[j] == (j < verdicts@.len()
                            && verdicts@[j]),
                decreases n - i,
            {
                let verdict = i < verdicts.len() && verdicts[i];
                self.judges.set(i, verdict);
                i += 1;
            }
            self.is_judged = true;
            proof {
                assert(self.judges.judges() =~= old(self)@.judged(verdicts@).judges);
            }
        }
        self.judges.judge()
    }

    /// Admits the entry whatever the policies judge: no policy is heeded.
    pub fn force(&mut self)
        ensures
            final(self)@ == (WriterState { mask: 0, ..old(self)@ }),
    {
        self.judges.set_mask(0);
    }

    /// Says which policies are heeded: bit `i` of `mask` stands for policy `i`.
    pub fn set_judge_mask(&mut self, mask: u64)
        ensures
            final(self)@ == (WriterState { mask, ..old(self)@ }),
    {
        self.judges.set_mask(mask);
    }

    pub fn set_skippable(&mut self)
        ensures
            final(self)@ == (WriterState { is_skippable: true, ..old(self)@ }),
    {
        self.is_skippable = true
    }

    /// Pins the sequence of the entry, in place of a newly minted one.
    pub fn set_sequence(&mut self, sequence: Sequence)
        ensures
            final(self)@ == (WriterState { sequence: Some(sequence), ..old(self)@ }),
    {
        self.sequence = Some(sequence);
    }

    pub fn compression(&self) -> (compression: Compression)
        ensures
            compression == self@.compression,
    {
        self.compression
    }

    pub fn set_compression(&mut self, compression: Compression)
        ensures
            final(self)@ == (WriterState { compression, ..old(self)@ }),
    {
        self.compression = compression
    }

    /// Ends the writer with `terminal` and hands out its key with the notices
    /// that are owed: one for each policy.
    pub fn conclude(self, terminal: Terminal) -> (r: (Vec<u8>, Vec<Notice>))
        ensures
            r.0@ == self@.key,
            r.1@ == spec_notices(self@.judges, terminal),
    {
        let owed = notices(&self.judges, terminal);
        (self.key, owed)
    }

    /// Gives the entry up without inserting it. Every policy is owed word of
    /// the drop, exactly once, whether the policies were consulted or not; a
    /// drop counts as filtered only where they were and turned the entry down.
    /// No policy is consulted by the drop.
    pub fn abandon(self) -> (dropped: Dropped)
        requires
            self.wf(),
        ensures
            dropped.notices@ == spec_notices(self@.judges, Terminal::Dropped),
            dropped.filtered == (self@.is_judged && !self@.admitted()),
    {
        let filtered = self.is_judged && !self.judges.judge();
        let (_, notices) = self.conclude(Terminal::Dropped);
        Dropped { notices, filtered }
    }
}

/// A writer that is dropped before the policies were consulted still owes
/// every policy word of the drop, exactly once.
pub proof fn lemma_fresh_writer_owes_drop(state: WriterState, policy: int)
    requires
        !state.is_judged,
        0 <= policy < state.judges.len() <= usize::MAX,
    ensures
        state.owed(Terminal::Dropped).len() == state.judges.len(),
        state.owed(Terminal::Dropped)[policy] == (Notice {
            policy: policy as usize,
            terminal: Terminal::Dropped,
            judge: state.judges[policy],
        }),
        forall|i: int|
            0 <= i < state.judges.len() && (#[trigger] state.owed(Terminal::Dropped)[i]).policy
                == policy ==> i == policy,
{
}

/// A forced writer is admitted whatever the policies have judged, and each
/// policy is still told what it had judged itself.
pub proof fn lemma_force_admits(state: WriterState, policy: int)
    requires
        state.mask == 0,
        state.is_judged,
        0 <= policy < state.judges.len(),
    ensures
        state.admitted(),
        state.owed(Terminal::Inserted)[policy].judge == state.judges[policy],
        state.owed(Terminal::Inserted)[policy].terminal == Terminal::Inserted,
{
    crate::judge::lemma_empty_mask_admits(state.judges);
}

} // verus!
