//! View settings: the toggles and enums that select which derived view the
//! reshape engine produces, together with the presentation-only knobs the
//! engine ignores.

use vstd::prelude::*;

verus! {

/// Sort axis: selects both the grouping strategy and the sort order of the
/// derived view.
#[derive(Clone, Copy, Debug, PartialEq, Eq, Structural)]
pub enum Sort {
    RetentionTime,
    MassToCharge,
}

impl Sort {
    /// Human-readable name of the axis.
    pub fn display(&self) -> (r: &'static str)
        ensures
            *self == Sort::RetentionTime ==> r@ == "Retention time"@,
            *self == Sort::MassToCharge ==> r@ == "Mass to charge"@,
    {
        match self {
            Sort::RetentionTime => "Retention time",
            Sort::MassToCharge => "Mass to charge",
        }
    }

    /// Longer description of what sorting by the axis means.
    pub fn description(&self) -> (r: &'static str)
        ensures
            *self == Sort::RetentionTime ==> r@ == "Sort by retention time column"@,
            *self == Sort::MassToCharge ==> r@ == "Sort by mass to charge column"@,
    {
        match self {
            Sort::RetentionTime => "Sort by retention time column",
            Sort::MassToCharge => "Sort by mass to charge column",
        }
    }
}

impl Default for Sort {
    fn default() -> (r: Self)
        ensures
            r == Sort::RetentionTime,
    {
        Sort::RetentionTime
    }
}

/// Time units used when formatting retention times for display.
#[derive(Clone, Copy, Debug, PartialEq, Eq, Structural)]
pub enum TimeUnits {
    Millisecond,
    Second,
    Minute,
}

impl Default for TimeUnits {
    fn default() -> (r: Self)
        ensures
            r == TimeUnits::Second,
    {
        TimeUnits::Second
    }
}

/// Display settings for the mass-to-charge column.
#[derive(Clone, Copy, Debug, PartialEq, Eq, Structural)]
pub struct MassToCharge {
    pub precision: usize,
}

impl Default for MassToCharge {
    fn default() -> (r: Self)
        ensures
            r == (MassToCharge { precision: 1 }),
    {
        MassToCharge { precision: 1 }
    }
}

/// Display settings for the retention-time column.
#[derive(Clone, Copy, Debug, PartialEq, Eq, Structural)]
pub struct RetentionTime {
    pub precision: usize,
    pub units: TimeUnits,
}

impl Default for RetentionTime {
    fn default() -> (r: Self)
        ensures
            r == (RetentionTime { precision: 2, units: TimeUnits::Second }),
    {
        RetentionTime { precision: 2, units: TimeUnits::Second }
    }
}

/// Full view settings, as owned by the surrounding application.
///
/// Only `explode`, `filter_null` and `sort` influence the reshape engine;
/// the remaining fields are presentation-only and are excluded from the
/// cache key by [`Settings::engine`].
#[derive(Clone, Copy, Debug, PartialEq, Eq, Structural)]
pub struct Settings {
    pub explode: bool,
    pub filter_null: bool,
    pub mass_to_charge: MassToCharge,
    pub retention_time: RetentionTime,
    pub sort: Sort,
    pub legend: bool,
    pub visible: Option<bool>,
}

impl Settings {
    /// The initial settings value.
    pub open spec fn default_spec() -> Settings {
        Settings {
            explode: false,
            filter_null: false,
            mass_to_charge: MassToCharge { precision: 1 },
            retention_time: RetentionTime { precision: 2, units: TimeUnits::Second },
            sort: Sort::RetentionTime,
            legend: false,
            visible: None,
        }
    }
}

impl Default for Settings {
    fn default() -> (r: Self)
        ensures
            r == Settings::default_spec(),
    {
        Settings {
            explode: false,
            filter_null: false,
            mass_to_charge: MassToCharge { precision: 1 },
            retention_time: RetentionTime { precision: 2, units: TimeUnits::Second },
            sort: Sort::RetentionTime,
            legend: false,
            visible: None,
        }
    }
}

/// The projection of [`Settings`] onto exactly the fields the reshape
/// engine reads.  Two settings values with equal projections are
/// cache-equivalent: they select the same derived view.
#[derive(Clone, Copy, Debug, PartialEq, Eq, Structural)]
pub struct EngineSettings {
    pub explode: bool,
    pub filter_null: bool,
    pub sort: Sort,
}

/// The engine-relevant projection of a settings value.
pub open spec fn engine_of(s: Settings) -> EngineSettings {
    EngineSettings { explode: s.explode, filter_null: s.filter_null, sort: s.sort }
}

impl Settings {
    /// Extracts the fields the reshape engine reads, dropping every
    /// presentation-only field.
    pub fn engine(&self) -> (r: EngineSettings)
        ensures
            r == engine_of(*self),
    {
        EngineSettings { explode: self.explode, filter_null: self.filter_null, sort: self.sort }
    }
}

/// Two settings that agree on every field the engine reads have the same
/// engine projection, however they differ in presentation-only fields
/// (display precision, time units, legend visibility): requests made with
/// them are served from one cache entry.
pub proof fn lemma_engine_settings_ignore_presentation(s1: Settings, s2: Settings)
    requires
        s1.explode == s2.explode,
        s1.filter_null == s2.filter_null,
        s1.sort == s2.sort,
    ensures
        engine_of(s1) == engine_of(s2),
{
}

} // verus!
