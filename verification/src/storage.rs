//! What every writer offers, and the ways to insert that are made of a
//! writer and its finish.

use crate::generic::{Applied, AppliedView, GenericStore, StoreState};
use crate::reinsertion::{all_accept, spec_all_accept};
use crate::writer::{GenericStoreWriter, Terminal, WriterState};
use vstd::prelude::*;

verus! {

/// The writer of one entry.
pub trait StorageWriter {
    /// Whether the writer can be used.
    spec fn usable(&self) -> bool;

    /// Judges whether the entry is admitted, given what the admission
    /// policies judge of it.
    fn judge(&mut self, verdicts: &[bool]) -> (admitted: bool)
        requires
            old(self).usable(),
        ensures
            final(self).usable(),
    ;
}

/// A writer that can be told to pass the admission policies by.
pub trait ForceStorageWriter: StorageWriter {
    /// Admits the entry whatever the admission policies judge.
    fn set_force(&mut self)
        requires
            old(self).usable(),
        ensures
            final(self).usable(),
    ;
}

impl StorageWriter for GenericStoreWriter {
    open spec fn usable(&self) -> bool {
        self.wf()
    }

    fn judge(&mut self, verdicts: &[bool]) -> (admitted: bool)
        ensures
            final(self)@ == old(self)@.judged(verdicts@),
            admitted == final(self)@.admitted(),
    {
        GenericStoreWriter::judge(self, verdicts)
    }
}

impl ForceStorageWriter for GenericStoreWriter {
    fn set_force(&mut self)
        ensures
            final(self)@ == (WriterState { mask: 0, ..old(self)@ }),
    {
        self.force()
    }
}

/// The weight of an entry: the lengths of its key and its value together, or
/// the greatest weight there is where that is less.
pub open spec fn spec_weight(key: Seq<u8>, value: Seq<u8>) -> usize {
    if key.len() + value.len() > usize::MAX {
        usize::MAX
    } else {
        (key.len() + value.len()) as usize
    }
}

/// The weight of an entry.
pub fn weight(key: &[u8], value: &[u8]) -> (w: usize)
    ensures
        w == spec_weight(key@, value@),
{
    match key.len().checked_add(value.len()) {
        Some(w) => w,
        None => usize::MAX,
    }
}

/// A fresh writer of the store `store` for `key`, forced or not.
pub open spec fn spec_writer(store: StoreState, key: Seq<u8>, weight: usize, force: bool) -> WriterState {
    WriterState {
        key,
        weight,
        sequence: None,
        judges: Seq::new(store.config.admissions as nat, |i: int| false),
        mask: if force {
            0
        } else {
            u64::MAX
        },
        is_judged: false,
        is_skippable: false,
        compression: store.config.compression,
    }
}

impl GenericStoreWriter {
    /// Finishes the writer on its store with the value of its entry.
    pub fn finish(self, store: &mut GenericStore, verdicts: &[bool], value: Vec<u8>) -> (r: Applied)
        requires
            old(store).wf(),
            self.wf(),
            self@.sequence is None ==> old(store)@.sequence < u64::MAX,
        ensures
            final(store).wf(),
            (final(store)@, r@) == old(store)@.apply(self@.judged(verdicts@), value@),
    {
        store.apply_writer(self, verdicts, value)
    }
}

impl GenericStore {
    /// Inserts `value` under `key`, if the admission policies, which have
    /// given `verdicts` on the key, admit it.
    pub fn insert(&mut self, key: Vec<u8>, value: Vec<u8>, verdicts: &[bool]) -> (r: Applied)
        requires
            old(self).wf(),
            old(self)@.sequence < u64::MAX,
        ensures
            final(self).wf(),
            (final(self)@, r@) == old(self)@.apply(
                spec_writer(old(self)@, key@, spec_weight(key@, value@), false).judged(verdicts@),
                value@,
            ),
    {
        let w = weight(key.as_slice(), value.as_slice());
        let writer = self.writer(key, w);
        writer.finish(self, verdicts, value)
    }

    /// Inserts `value` under `key` unless the catalog has an entry for the
    /// key: then nothing is done and nothing returned.
    pub fn insert_if_not_exists(&mut self, key: Vec<u8>, value: Vec<u8>, verdicts: &[bool]) -> (r:
        Option<Applied>)
        requires
            old(self).wf(),
            old(self)@.sequence < u64::MAX,
        ensures
            final(self).wf(),
            match r {
                None => old(self)@.catalog.contains_key(key@) && final(self)@ == old(self)@,
                Some(applied) => !old(self)@.catalog.contains_key(key@) && (
                    final(self)@,
                    applied@,
                ) == old(self)@.apply(
                    spec_writer(old(self)@, key@, spec_weight(key@, value@), false).judged(
                        verdicts@,
                    ),
                    value@,
                ),
            },
    {
        if self.contains(key.as_slice()) {
            return None;
        }
        Some(self.insert(key, value, verdicts))
    }

    /// Inserts `value` under `key` whatever the admission policies judge.
    /// Every policy is still told what it had judged.
    pub fn insert_force(&mut self, key: Vec<u8>, value: Vec<u8>, verdicts: &[bool]) -> (r: Applied)
        requires
            old(self).wf(),
            old(self)@.sequence < u64::MAX,
        ensures
            final(self).wf(),
            !(r is Rejected),
            (final(self)@, r@) == old(self)@.apply(
                spec_writer(old(self)@, key@, spec_weight(key@, value@), true).judged(verdicts@),
                value@,
            ),
    {
        let w = weight(key.as_slice(), value.as_slice());
        let mut writer = self.writer(key, w);
        writer.set_force();
        proof {
            crate::judge::lemma_empty_mask_admits(writer@.judged(verdicts@).judges);
        }
        writer.finish(self, verdicts, value)
    }

    /// Judges first whether an entry for `key` of weight `weight` is
    /// admitted, and only then has `fetch` produce the value and inserts it.
    /// An entry that is not admitted, or whose value cannot be fetched, is
    /// dropped, and every policy is told so.
    pub fn insert_with<F: FnOnce() -> Option<Vec<u8>>>(
        &mut self,
        key: Vec<u8>,
        fetch: F,
        weight: usize,
        verdicts: &[bool],
    ) -> (r: Applied)
        requires
            old(self).wf(),
            old(self)@.sequence < u64::MAX,
            call_requires(fetch, ()),
        ensures
            final(self).wf(),
            ({
                let writer = spec_writer(old(self)@, key@, weight, false).judged(verdicts@);
                if !writer.admitted() {
                    final(self)@ == old(self)@ && r@ == (AppliedView::Rejected {
                        notices: writer.owed(Terminal::Dropped),
                    })
                } else {
                    ||| {
                        &&& call_ensures(fetch, (), None)
                        &&& final(self)@ == old(self)@
                        &&& r@ == (AppliedView::Rejected { notices: writer.owed(Terminal::Dropped) })
                    }
                    ||| exists|value: Vec<u8>|
                        {
                            &&& call_ensures(fetch, (), Some(value))
                            &&& (final(self)@, r@) == old(self)@.apply(writer, value@)
                        }
                }
            }),
    {
        self.insert_with_inner(key, fetch, weight, verdicts, false)
    }

    /// As `insert_with`, but the entry is admitted whatever the admission
    /// policies judge.
    pub fn insert_force_with<F: FnOnce() -> Option<Vec<u8>>>(
        &mut self,
        key: Vec<u8>,
        fetch: F,
        weight: usize,
        verdicts: &[bool],
    ) -> (r: Applied)
        requires
            old(self).wf(),
            old(self)@.sequence < u64::MAX,
            call_requires(fetch, ()),
        ensures
            final(self).wf(),
            ({
                let writer = spec_writer(old(self)@, key@, weight, true).judged(verdicts@);
                ||| {
                    &&& call_ensures(fetch, (), None)
                    &&& final(self)@ == old(self)@
                    &&& r@ == (AppliedView::Rejected { notices: writer.owed(Terminal::Dropped) })
                }
                ||| exists|value: Vec<u8>|
                    {
                        &&& call_ensures(fetch, (), Some(value))
                        &&& (final(self)@, r@) == old(self)@.apply(writer, value@)
                    }
            }),
    {
        proof {
            crate::judge::lemma_empty_mask_admits(
                spec_writer(old(self)@, key@, weight, true).judged(verdicts@).judges,
            );
        }
        self.insert_with_inner(key, fetch, weight, verdicts, true)
    }

    /// As `insert_with`, unless the catalog has an entry for the key: then
    /// nothing is done, no value fetched, and nothing returned.
    pub fn insert_if_not_exists_with<F: FnOnce() -> Option<Vec<u8>>>(
        &mut self,
        key: Vec<u8>,
        fetch: F,
        weight: usize,
        verdicts: &[bool],
    ) -> (r: Option<Applied>)
        requires
            old(self).wf(),
            old(self)@.sequence < u64::MAX,
            call_requires(fetch, ()),
        ensures
            final(self).wf(),
            r is None <==> old(self)@.catalog.contains_key(key@),
            r is None ==> final(self)@ == old(self)@,
            r is Some ==> ({
                let writer = spec_writer(old(self)@, key@, weight, false).judged(verdicts@);
                let applied = r->Some_0;
                if !writer.admitted() {
                    final(self)@ == old(self)@ && applied@ == (AppliedView::Rejected {
                        notices: writer.owed(Terminal::Dropped),
                    })
                } else {
                    ||| {
                        &&& call_ensures(fetch, (), None)
                        &&& final(self)@ == old(self)@
                        &&& applied@ == (AppliedView::Rejected {
                            notices: writer.owed(Terminal::Dropped),
                        })
                    }
                    ||| exists|value: Vec<u8>|
                        {
                            &&& call_ensures(fetch, (), Some(value))
                            &&& (final(self)@, applied@) == old(self)@.apply(writer, value@)
                        }
                }
            }),
    {
        if self.contains(key.as_slice()) {
            return None;
        }
        Some(self.insert_with(key, fetch, weight, verdicts))
    }

    /// Puts an entry of a reclaimed region back into the store, where every
    /// reinsertion policy accepts it: then it is admitted anew, with a new
    /// sequence, as any other entry is. Nothing is done, and nothing
    /// returned, where a reinsertion policy turns it down.
    pub fn reinsert(
        &mut self,
        key: Vec<u8>,
        value: Vec<u8>,
        reinsertions: &[bool],
        verdicts: &[bool],
    ) -> (r: Option<Applied>)
        requires
            old(self).wf(),
            old(self)@.sequence < u64::MAX,
        ensures
            final(self).wf(),
            match r {
                None => !spec_all_accept(reinsertions@) && final(self)@ == old(self)@,
                Some(applied) => spec_all_accept(reinsertions@) && (final(self)@, applied@)
                    == old(self)@.apply(
                    spec_writer(old(self)@, key@, spec_weight(key@, value@), false).judged(
                        verdicts@,
                    ),
                    value@,
                ),
            },
    {
        if !all_accept(reinsertions) {
            return None;
        }
        Some(self.insert(key, value, verdicts))
    }

    fn insert_with_inner<F: FnOnce() -> Option<Vec<u8>>>(
        &mut self,
        key: Vec<u8>,
        fetch: F,
        weight: usize,
        verdicts: &[bool],
        force: bool,
    ) -> (r: Applied)
        requires
            old(self).wf(),
            old(self)@.sequence < u64::MAX,
            call_requires(fetch, ()),
        ensures
            final(self).wf(),
            ({
                let writer = spec_writer(old(self)@, key@, weight, force).judged(verdicts@);
                if !writer.admitted() {
                    final(self)@ == old(self)@ && r@ == (AppliedView::Rejected {
                        notices: writer.owed(Terminal::Dropped),
                    })
                } else {
                    ||| {
                        &&& call_ensures(fetch, (), None)
                        &&& final(self)@ == old(self)@
                        &&& r@ == (AppliedView::Rejected { notices: writer.owed(Terminal::Dropped) })
                    }
                    ||| exists|value: Vec<u8>|
                        {
                            &&& call_ensures(fetch, (), Some(value))
                            &&& (final(self)@, r@) == old(self)@.apply(writer, value@)
                        }
                }
            }),
    {
        let mut writer = self.writer(key, weight);
        if force {
            writer.set_force();
        }
        if !writer.judge(verdicts) {
            let (_, notices) = writer.conclude(Terminal::Dropped);
            return Applied::Rejected { notices };
        }
        let ghost judged = writer@;
        match fetch() {
            Some(value) => {
                let r = writer.finish(self, verdicts, value);
                proof {
                    assert(judged.judged(verdicts@) == judged);
                }
                r
            },
            None => {
                let (_, notices) = writer.conclude(Terminal::Dropped);
                Applied::Rejected { notices }
            },
        }
    }
}

} // verus!
