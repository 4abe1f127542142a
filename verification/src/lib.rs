//! Core of a mass-spectrometry acquisition viewer: a columnar dataset of
//! retention-time scans, a reshape engine that derives aggregated or
//! flattened tabular views from it, and a memoized cache that guarantees at
//! most one reshape per distinct (dataset, settings) combination.
//!
//! Rendering, persistence and unit formatting live in the surrounding
//! application; this crate holds the data model, the reshape pipeline and
//! the cache, all verified.

use vstd::prelude::*;

pub mod cache;
pub mod context;
pub mod data;
pub mod model;
pub mod panes;
pub mod reshape;
pub mod settings;

use crate::panes::Pane;

verus! {

/// The application model: the top-level toggles and the open panes.
pub struct App {
    pub reactive: bool,
    pub left_panel: bool,
    pub panes: Vec<Pane>,
}

impl Default for App {
    fn default() -> (r: Self)
        ensures
            r.reactive,
            r.left_panel,
            r.panes@.len() == 0,
    {
        App { reactive: true, left_panel: true, panes: Vec::new() }
    }
}

impl App {
    /// Opens one more pane, after the existing ones.
    pub fn insert_pane(&mut self, pane: Pane)
        ensures
            final(self).panes@ == old(self).panes@.push(pane),
            final(self).reactive == old(self).reactive,
            final(self).left_panel == old(self).left_panel,
    {
        self.panes.push(pane);
    }

    /// Closes the pane at `index`, keeping the others in order.
    pub fn close_pane(&mut self, index: usize)
        requires
            index < old(self).panes@.len(),
        ensures
            final(self).panes@ == old(self).panes@.remove(index as int),
            final(self).reactive == old(self).reactive,
            final(self).left_panel == old(self).left_panel,
    {
        self.panes.remove(index);
    }
}

} // verus!
