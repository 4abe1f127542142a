//! The pane and tab model: which view of which dataset each pane shows.
//! The widgets that draw them live in the surrounding application; here
//! live the data each pane owns and the accessors the application reads.

use vstd::prelude::*;

use crate::context::Context;
use crate::data::Dataset;
use crate::settings::Settings;

verus! {

/// A pane showing the derived view as a table.
pub struct TablePane {
    pub data_frame: Dataset,
    pub settings: Settings,
}

/// A pane showing the derived view as a plot.
pub struct PlotPane {
    pub data_frame: Dataset,
    pub settings: Settings,
}

/// One pane of the workspace.
pub enum Pane {
    Plot(PlotPane),
    Table(TablePane),
}

impl Pane {
    /// The pane's title.
    pub fn title(&self) -> (r: &'static str)
        ensures
            self matches Pane::Plot(_) ==> r@ == "Plot"@,
            self matches Pane::Table(_) ==> r@ == "Table"@,
    {
        match self {
            Pane::Plot(_) => "Plot",
            Pane::Table(_) => "Table",
        }
    }

    /// The dataset the pane shows.
    pub fn data_frame(&self) -> (r: &Dataset)
        ensures
            self matches Pane::Plot(p) ==> *r == p.data_frame,
            self matches Pane::Table(t) ==> *r == t.data_frame,
    {
        match self {
            Pane::Plot(plot) => &plot.data_frame,
            Pane::Table(table) => &table.data_frame,
        }
    }

    /// The pane's view settings.
    pub fn settings(&self) -> (r: &Settings)
        ensures
            self matches Pane::Plot(p) ==> *r == p.settings,
            self matches Pane::Table(t) ==> *r == t.settings,
    {
        match self {
            Pane::Plot(plot) => &plot.settings,
            Pane::Table(table) => &table.settings,
        }
    }
}

/// One tab of the central dock.
#[derive(Clone, Copy, Debug, PartialEq, Eq, Structural)]
pub enum Tab {
    Plot,
    Table,
}

impl Tab {
    /// The tab's one-character sign.
    pub fn sign(&self) -> (r: &'static str)
        ensures
            *self == Tab::Plot ==> r@ == "📊"@,
            *self == Tab::Table ==> r@ == "T"@,
    {
        match self {
            Tab::Plot => "📊",
            Tab::Table => "T",
        }
    }

    /// The tab's title.
    pub fn title(&self) -> (r: &'static str)
        ensures
            *self == Tab::Plot ==> r@ == "Plot"@,
            *self == Tab::Table ==> r@ == "Table"@,
    {
        match self {
            Tab::Plot => "Plot",
            Tab::Table => "Table",
        }
    }
}

/// The plot tab: a view over the shared context.
pub struct PlotTab {
    pub context: Context,
}

impl PlotTab {
    /// Wraps the context for the plot tab.
    pub fn new(context: Context) -> (r: Self)
        ensures
            r.context == context,
    {
        PlotTab { context }
    }
}

/// The settings tab: a view over the shared context.
pub struct SettingsTab {
    pub context: Context,
}

impl SettingsTab {
    /// Wraps the context for the settings tab.
    pub fn new(context: Context) -> (r: Self)
        ensures
            r.context == context,
    {
        SettingsTab { context }
    }
}

} // verus!
