//! The memoized cache: at most one reshape per distinct (dataset identity,
//! engine-relevant settings) combination, with the result served to every
//! consumer until the key changes.
//!
//! The cache holds one live entry, the usage pattern of a single rendered
//! pane; a new key replaces it.  Failed computations are reported to the
//! caller and never cached, so a corrected dataset can succeed later.

use vstd::prelude::*;

use crate::data::{Dataset, total_signal};
use crate::reshape::{DerivedView, ReshapeError, reshape, reshape_view};
use crate::settings::{EngineSettings, Settings, engine_of};
use vstd::pervasive::unreached;

verus! {

/// The cache key: which loaded dataset, plus exactly the settings fields
/// the reshape engine reads.  Presentation-only fields (precision, time
/// units, legend visibility) do not appear, so requests differing only in
/// them are cache-equivalent.
#[derive(Clone, Copy, Debug, PartialEq, Eq, Structural)]
pub struct Key {
    pub index: usize,
    pub settings: EngineSettings,
}

/// The key a request computes to.
pub open spec fn key_of(index: usize, s: Settings) -> Key {
    Key { index, settings: engine_of(s) }
}

/// Cache equivalence: two settings that agree on every engine-relevant
/// field map to the same key, whatever their presentation-only fields do,
/// so the later request is served from the earlier request's entry.
pub proof fn lemma_cache_key_equivalence(index: usize, s1: Settings, s2: Settings)
    requires
        s1.explode == s2.explode,
        s1.filter_null == s2.filter_null,
        s1.sort == s2.sort,
    ensures
        key_of(index, s1) == key_of(index, s2),
{
}

/// One memoized result: the key it was computed for, the derived view, and
/// — for specification only — the dataset it was computed from.
pub struct CacheEntry {
    pub key: Key,
    pub view: DerivedView,
    pub source: Ghost<Dataset>,
}

/// The memoized cache.  `computations` counts the reshape invocations, the
/// instrumentation that makes the at-most-one-compute contract observable.
pub struct MemoCache {
    pub entry: Option<CacheEntry>,
    pub computations: u64,
}

impl MemoCache {
    /// The cache never holds a stale or fabricated result: a stored view is
    /// the reshape of the dataset it was computed from, under the stored
    /// key's settings.
    pub open spec fn wf(self) -> bool {
        match self.entry {
            Some(e) => e.view@ == reshape_view(e.source@, e.key.settings)
                && e.source@.consistent(),
            None => true,
        }
    }

    /// Whether the cache holds an entry for `key`.
    pub open spec fn has(self, key: Key) -> bool {
        match self.entry {
            Some(e) => e.key == key,
            None => false,
        }
    }

    /// The identity discipline: the dataset at `index` is unchanged since
    /// any cached entry for `index` was computed.  A
    /// caller that never mutates a loaded dataset in place satisfies this
    /// for free; replacing a dataset must use a fresh index.
    pub open spec fn current_for(self, index: usize, d: Dataset) -> bool {
        match self.entry {
            Some(e) => e.key.index == index ==> e.source@ == d,
            None => true,
        }
    }

    /// An empty cache.
    pub fn new() -> (r: Self)
        ensures
            r.entry is None,
            r.computations == 0,
            r.wf(),
    {
        MemoCache { entry: None, computations: 0 }
    }

    /// Number of reshape computations performed so far.
    pub fn computations(&self) -> (r: u64)
        ensures
            r == self.computations,
    {
        self.computations
    }

    /// Ensures the view for `(index, settings)` is cached: a hit leaves the
    /// cache untouched and computes nothing; a miss invokes the reshape
    /// engine exactly once and stores the result.  A failed computation is
    /// reported and not cached.
    pub fn fetch(&mut self, dataset: &Dataset, index: usize, settings: &Settings) -> (r: Result<
        (),
        ReshapeError,
    >)
        requires
            old(self).wf(),
            old(self).computations < u64::MAX,
            engine_of(*settings).explode || total_signal(*dataset) <= u64::MAX,
            old(self).current_for(index, *dataset),
        ensures
            final(self).wf(),
            final(self).current_for(index, *dataset),
            old(self).has(key_of(index, *settings)) ==> r is Ok && *final(self) == *old(self),
            !old(self).has(key_of(index, *settings)) ==> final(self).computations == old(
                self,
            ).computations + 1,
            r is Ok <==> dataset.consistent(),
            r is Ok ==> final(self).has(key_of(index, *settings)) && (match final(self).entry {
                Some(e) => e.view@ == reshape_view(*dataset, engine_of(*settings)) && e.source@
                    == *dataset,
                None => false,
            }),
            r is Err ==> final(self).entry == old(self).entry,
    {
        let key = Key { index, settings: settings.engine() };
        let hit = match &self.entry {
            Some(e) => e.key == key,
            None => false,
        };
        if hit {
            return Ok(());
        }
        match reshape(dataset, settings) {
            Ok(view) => {
                self.entry = Some(CacheEntry { key, view, source: Ghost(*dataset) });
                self.computations = self.computations + 1;
                Ok(())
            },
            Err(e) => {
                self.computations = self.computations + 1;
                Err(e)
            },
        }
    }

    /// Serves the derived view for `(index, settings)` in one call:
    /// [`MemoCache::fetch`] followed by a read of the entry.
    pub fn get(&mut self, dataset: &Dataset, index: usize, settings: &Settings) -> (r: Result<
        &DerivedView,
        ReshapeError,
    >)
        requires
            old(self).wf(),
            old(self).computations < u64::MAX,
            engine_of(*settings).explode || total_signal(*dataset) <= u64::MAX,
            old(self).current_for(index, *dataset),
        ensures
            final(self).wf(),
            final(self).current_for(index, *dataset),
            old(self).has(key_of(index, *settings)) ==> r is Ok && *final(self) == *old(self),
            !old(self).has(key_of(index, *settings)) ==> final(self).computations == old(
                self,
            ).computations + 1,
            r is Ok <==> dataset.consistent(),
            r matches Ok(v) ==> v@ == reshape_view(*dataset, engine_of(*settings))
                && final(self).has(key_of(index, *settings)),
            r is Err ==> final(self).entry == old(self).entry,
    {
        let fetched = self.fetch(dataset, index, settings);
        match fetched {
            Err(e) => Err(e),
            Ok(()) => match &self.entry {
                Some(entry) => Ok(&entry.view),
                None => unreached(),
            },
        }
    }

    /// The cached view, if any.
    pub fn view(&self) -> (r: Option<&DerivedView>)
        ensures
            match self.entry {
                Some(e) => r matches Some(v) && *v == e.view,
                None => r is None,
            },
    {
        match &self.entry {
            Some(e) => Some(&e.view),
            None => None,
        }
    }

    /// Drops the cached entry, e.g. when its dataset is closed.
    pub fn clear(&mut self)
        ensures
            final(self).entry is None,
            final(self).computations == old(self).computations,
            final(self).wf(),
    {
        self.entry = None;
    }
}

} // verus!
