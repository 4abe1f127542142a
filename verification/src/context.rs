//! Shared application state: the loaded datasets, which one is selected,
//! and the current view settings.

use vstd::prelude::*;

use crate::data::Dataset;
use crate::settings::Settings;

verus! {

/// The loaded datasets and the index of the selected one.  A dataset is
/// never mutated in place; replacing one means loading it under a fresh
/// index, which is what keeps cache keys honest.
pub struct State {
    pub datasets: Vec<Dataset>,
    pub index: usize,
}

impl State {
    /// No datasets, selection at the start.
    pub fn new() -> (r: Self)
        ensures
            r.datasets@.len() == 0,
            r.index == 0,
    {
        State { datasets: Vec::new(), index: 0 }
    }

    /// The selected dataset, if the selection is in range.
    pub fn current(&self) -> (r: Option<&Dataset>)
        ensures
            self.index < self.datasets@.len() ==> (r matches Some(d) && *d == self.datasets@[self.index as int]),
            self.index >= self.datasets@.len() ==> r is None,
    {
        if self.index < self.datasets.len() {
            Some(&self.datasets[self.index])
        } else {
            None
        }
    }

    /// Loads one more dataset, leaving the selection unchanged.
    pub fn add_dataset(&mut self, dataset: Dataset)
        ensures
            final(self).datasets@ == old(self).datasets@.push(dataset),
            final(self).index == old(self).index,
    {
        self.datasets.push(dataset);
    }

    /// Selects a loaded dataset.
    pub fn select(&mut self, index: usize)
        requires
            index < old(self).datasets@.len(),
        ensures
            final(self).datasets@ == old(self).datasets@,
            final(self).index == index,
    {
        self.index = index;
    }
}

impl Default for State {
    fn default() -> (r: Self)
        ensures
            r.datasets@.len() == 0,
            r.index == 0,
    {
        State::new()
    }
}

/// The state together with the current view settings.
pub struct Context {
    pub state: State,
    pub settings: Settings,
}

impl Default for Context {
    fn default() -> (r: Self)
        ensures
            r.state.datasets@.len() == 0,
            r.state.index == 0,
            r.settings == Settings::default_spec(),
    {
        Context { state: State::new(), settings: Settings::default() }
    }
}

} // verus!
