//! One store type for every eviction order, and for no store at all.

use crate::error::Error;
use crate::generic::{Applied, AppliedView, GenericStore, GenericStoreConfig, Lookup, LookupView};
use crate::generic::StoreState;
use crate::region_manager::EvictionConfig;
use crate::storage::{ForceStorageWriter, StorageWriter};
use crate::writer::{GenericStoreWriter, WriterState};
use vstd::prelude::*;

verus! {

/// How a store is set up, by the eviction order it is to have.
#[derive(Debug, Clone, Copy)]
pub enum StoreConfig {
    LruFsStoreConfig { config: GenericStoreConfig },
    LfuFsStoreConfig { config: GenericStoreConfig },
    FifoFsStoreConfig { config: GenericStoreConfig },
    /// No store is wanted.
    Noop,
}

impl StoreConfig {
    /// The configuration of the store that is opened, if one is.
    pub open spec fn generic(self) -> Option<GenericStoreConfig> {
        match self {
            StoreConfig::LruFsStoreConfig { config } => Some(
                GenericStoreConfig { eviction_config: EvictionConfig::Lru, ..config },
            ),
            StoreConfig::LfuFsStoreConfig { config } => Some(
                GenericStoreConfig { eviction_config: EvictionConfig::Lfu, ..config },
            ),
            StoreConfig::FifoFsStoreConfig { config } => Some(
                GenericStoreConfig { eviction_config: EvictionConfig::Fifo, ..config },
            ),
            StoreConfig::Noop => None,
        }
    }

    /// The configuration of a store with the eviction order that `config` names.
    pub fn from(config: GenericStoreConfig) -> (r: StoreConfig)
        ensures
            r.generic() == Some(config),
    {
        match config.eviction_config {
            EvictionConfig::Lru => StoreConfig::LruFsStoreConfig { config },
            EvictionConfig::Lfu => StoreConfig::LfuFsStoreConfig { config },
            EvictionConfig::Fifo => StoreConfig::FifoFsStoreConfig { config },
        }
    }
}

/// A writer of a store of any kind.
#[derive(Debug)]
pub enum StoreWriter {
    LruFsStorWriter { writer: GenericStoreWriter },
    LfuFsStorWriter { writer: GenericStoreWriter },
    FifoFsStoreWriter { writer: GenericStoreWriter },
    /// The writer of no store: it admits nothing.
    Noop,
}

impl StoreWriter {
    /// The writer inside, if there is one.
    pub open spec fn generic(self) -> Option<GenericStoreWriter> {
        match self {
            StoreWriter::LruFsStorWriter { writer } => Some(writer),
            StoreWriter::LfuFsStorWriter { writer } => Some(writer),
            StoreWriter::FifoFsStoreWriter { writer } => Some(writer),
            StoreWriter::Noop => None,
        }
    }

    pub open spec fn wf(self) -> bool {
        self.generic() matches Some(writer) ==> writer.wf()
    }

    /// Takes the writer inside out, if there is one.
    pub fn into_generic(self) -> (r: Option<GenericStoreWriter>)
        ensures
            r == self.generic(),
    {
        match self {
            StoreWriter::LruFsStorWriter { writer } => Some(writer),
            StoreWriter::LfuFsStorWriter { writer } => Some(writer),
            StoreWriter::FifoFsStoreWriter { writer } => Some(writer),
            StoreWriter::Noop => None,
        }
    }
}

impl StorageWriter for StoreWriter {
    open spec fn usable(&self) -> bool {
        self.wf()
    }

    fn judge(&mut self, verdicts: &[bool]) -> (admitted: bool)
        ensures
            match old(self).generic() {
                Some(writer) => {
                    &&& final(self).generic() is Some
                    &&& final(self).generic()->Some_0@ == writer@.judged(verdicts@)
                    &&& admitted == writer@.judged(verdicts@).admitted()
                },
                None => !admitted && *final(self) == *old(self),
            },
    {
        match self {
            StoreWriter::LruFsStorWriter { writer } => writer.judge(verdicts),
            StoreWriter::LfuFsStorWriter { writer } => writer.judge(verdicts),
            StoreWriter::FifoFsStoreWriter { writer } => writer.judge(verdicts),
            StoreWriter::Noop => false,
        }
    }
}

impl ForceStorageWriter for StoreWriter {
    fn set_force(&mut self)
        ensures
            match old(self).generic() {
                Some(writer) => {
                    &&& final(self).generic() is Some
                    &&& final(self).generic()->Some_0@ == (WriterState { mask: 0, ..writer@ })
                },
                None => *final(self) == *old(self),
            },
    {
        match self {
            StoreWriter::LruFsStorWriter { writer } => writer.set_force(),
            StoreWriter::LfuFsStorWriter { writer } => writer.set_force(),
            StoreWriter::FifoFsStoreWriter { writer } => writer.set_force(),
            StoreWriter::Noop => {},
        }
    }
}

/// A store of any kind, or no store at all.
#[derive(Debug)]
pub enum Store {
    LruFsStore { store: GenericStore },
    LfuFsStore { store: GenericStore },
    FifoFsStore { store: GenericStore },
    /// No store: nothing is kept and nothing is found.
    Noop,
}

impl Store {
    /// The store inside, if there is one.
    pub open spec fn generic(self) -> Option<GenericStore> {
        match self {
            Store::LruFsStore { store } => Some(store),
            Store::LfuFsStore { store } => Some(store),
            Store::FifoFsStore { store } => Some(store),
            Store::Noop => None,
        }
    }

    pub open spec fn wf(self) -> bool {
        self.generic() matches Some(store) ==> store.wf()
    }

    /// Opens the store that `config` asks for.
    pub fn open(config: StoreConfig) -> (r: Result<Store, Error>)
        ensures
            match config.generic() {
                None => r matches Ok(store) && store.generic() is None,
                Some(generic) => match r {
                    Ok(store) => {
                        &&& generic.valid()
                        &&& store.wf()
                        &&& store.generic() matches Some(inner) && inner@.config == generic
                            && inner@.catalog == Map::<
                            Seq<u8>,
                            crate::catalog::ItemView,
                        >::empty() && inner@.sequence == 0 && inner@.manager.pending
                            == generic.device_config.regions
                    },
                    Err(e) => !generic.valid() && e == Error::Configuration,
                },
            },
    {
        match config {
            StoreConfig::LruFsStoreConfig { config } => {
                let config = GenericStoreConfig { eviction_config: EvictionConfig::Lru, ..config };
                match GenericStore::open(config) {
                    Ok(store) => Ok(Store::LruFsStore { store }),
                    Err(e) => Err(e),
                }
            },
            StoreConfig::LfuFsStoreConfig { config } => {
                let config = GenericStoreConfig { eviction_config: EvictionConfig::Lfu, ..config };
                match GenericStore::open(config) {
                    Ok(store) => Ok(Store::LfuFsStore { store }),
                    Err(e) => Err(e),
                }
            },
            StoreConfig::FifoFsStoreConfig { config } => {
                let config = GenericStoreConfig { eviction_config: EvictionConfig::Fifo, ..config };
                match GenericStore::open(config) {
                    Ok(store) => Ok(Store::FifoFsStore { store }),
                    Err(e) => Err(e),
                }
            },
            StoreConfig::Noop => Ok(Store::Noop),
        }
    }

    /// The store inside, if there is one.
    pub fn as_generic(&self) -> (r: Option<&GenericStore>)
        ensures
            match r {
                Some(store) => self.generic() == Some(*store),
                None => self.generic() is None,
            },
    {
        match self {
            Store::LruFsStore { store } => Some(store),
            Store::LfuFsStore { store } => Some(store),
            Store::FifoFsStore { store } => Some(store),
            Store::Noop => None,
        }
    }

    /// Closes the store: from now on no entry is admitted.
    pub fn close(&mut self)
        ensures
            match old(self).generic() {
                Some(store) => final(self).generic() matches Some(closed) && closed@ == (StoreState {
                    closed: true,
                    ..store@
                }) && (store.wf() ==> closed.wf()),
                None => final(self).generic() is None,
            },
    {
        match self {
            Store::LruFsStore { store } => store.close(),
            Store::LfuFsStore { store } => store.close(),
            Store::FifoFsStore { store } => store.close(),
            Store::Noop => {},
        }
    }

    /// A writer for `key`.
    pub fn writer(&self, key: Vec<u8>, weight: usize) -> (writer: StoreWriter)
        requires
            self.wf(),
        ensures
            writer.wf(),
            match self.generic() {
                Some(store) => writer.generic() matches Some(inner) && inner@
                    == crate::storage::spec_writer(store@, key@, weight, false),
                None => writer.generic() is None,
            },
    {
        match self {
            Store::LruFsStore { store } => StoreWriter::LruFsStorWriter {
                writer: store.writer(key, weight),
            },
            Store::LfuFsStore { store } => StoreWriter::LfuFsStorWriter {
                writer: store.writer(key, weight),
            },
            Store::FifoFsStore { store } => StoreWriter::FifoFsStoreWriter {
                writer: store.writer(key, weight),
            },
            Store::Noop => StoreWriter::Noop,
        }
    }

    /// Finishes a writer with the value of its entry. Without a store, or
    /// without a writer of one, nothing is inserted and nobody is owed a word.
    pub fn finish(&mut self, writer: StoreWriter, verdicts: &[bool], value: Vec<u8>) -> (r: Applied)
        requires
            old(self).wf(),
            writer.wf(),
            old(self).generic() is Some && writer.generic() is Some
                && writer.generic()->Some_0@.sequence is None ==> old(
                self,
            ).generic()->Some_0@.sequence < u64::MAX,
        ensures
            final(self).wf(),
            match (old(self).generic(), writer.generic()) {
                (Some(store), Some(inner)) => final(self).generic() matches Some(after) && (
                    after@,
                    r@,
                ) == store@.apply(inner@.judged(verdicts@), value@),
                _ => {
                    &&& r@ == (AppliedView::Rejected { notices: Seq::empty() })
                    &&& final(self).generic() == old(self).generic()
                },
            },
    {
        let inner = match writer.into_generic() {
            Some(inner) => inner,
            None => return Applied::Rejected { notices: Vec::new() },
        };
        match self {
            Store::LruFsStore { store } => store.apply_writer(inner, verdicts, value),
            Store::LfuFsStore { store } => store.apply_writer(inner, verdicts, value),
            Store::FifoFsStore { store } => store.apply_writer(inner, verdicts, value),
            Store::Noop => Applied::Rejected { notices: Vec::new() },
        }
    }

    /// Whether the store has an entry for `key`. No store has none.
    pub fn contains(&self, key: &[u8]) -> (found: bool)
        requires
            self.wf(),
        ensures
            found == match self.generic() {
                Some(store) => store@.catalog.contains_key(key@),
                None => false,
            },
    {
        match self {
            Store::LruFsStore { store } => store.contains(key),
            Store::LfuFsStore { store } => store.contains(key),
            Store::FifoFsStore { store } => store.contains(key),
            Store::Noop => false,
        }
    }

    /// Looks `key` up. No store misses every key.
    pub fn lookup(&mut self, key: &[u8]) -> (r: Lookup)
        requires
            old(self).wf(),
            old(self).generic() matches Some(store) ==> forall|id: int|
                0 <= id < store@.manager.regions.len() ==> (
                #[trigger] store@.manager.regions[id]).physical_readers < usize::MAX,
        ensures
            final(self).wf(),
            match old(self).generic() {
                Some(store) => final(self).generic() matches Some(after) && (after@, r@)
                    == store@.lookup(key@),
                None => r@ == LookupView::Miss && final(self).generic() is None,
            },
    {
        match self {
            Store::LruFsStore { store } => store.lookup(key),
            Store::LfuFsStore { store } => store.lookup(key),
            Store::FifoFsStore { store } => store.lookup(key),
            Store::Noop => Lookup::Miss,
        }
    }

    /// Takes the entry of `key` out of the store, and says whether there was one.
    pub fn remove(&mut self, key: &[u8]) -> (removed: bool)
        requires
            old(self).wf(),
        ensures
            final(self).wf(),
            match old(self).generic() {
                Some(store) => {
                    &&& removed == store@.catalog.contains_key(key@)
                    &&& final(self).generic() is Some
                    &&& final(self).generic()->Some_0@ == store@.with_catalog(
                        store@.catalog.remove(key@),
                    )
                },
                None => !removed && final(self).generic() is None,
            },
    {
        match self {
            Store::LruFsStore { store } => store.remove(key),
            Store::LfuFsStore { store } => store.remove(key),
            Store::FifoFsStore { store } => store.remove(key),
            Store::Noop => false,
        }
    }

    /// Empties the store.
    pub fn clear(&mut self)
        requires
            old(self).wf(),
        ensures
            final(self).wf(),
            match old(self).generic() {
                Some(store) => final(self).generic() matches Some(after) && after@
                    == store@.with_catalog(Map::empty()),
                None => final(self).generic() is None,
            },
    {
        match self {
            Store::LruFsStore { store } => store.clear(),
            Store::LfuFsStore { store } => store.clear(),
            Store::FifoFsStore { store } => store.clear(),
            Store::Noop => {},
        }
    }
}

} // verus!
