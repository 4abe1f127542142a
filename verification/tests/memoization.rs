//! Tests for the memoized cache: at most one computation per key, cache
//! equivalence across presentation-only settings changes, and error
//! propagation without caching.

use ms_viewer::cache::MemoCache;
use ms_viewer::data::Dataset;
use ms_viewer::reshape::{DerivedView, ReshapeError};
use ms_viewer::settings::{Settings, Sort, TimeUnits};

fn dataset() -> Dataset {
    Dataset {
        retention_time: vec![100, 200],
        mass_to_charge: vec![vec![50_100, 50_900], vec![60_200]],
        signal: vec![vec![10, 20], vec![30]],
    }
}

#[test]
fn cache_computes_once_per_key() {
    let d = dataset();
    let mut cache = MemoCache::new();
    let s = Settings::default();
    assert_eq!(cache.computations(), 0);
    cache.fetch(&d, 0, &s).unwrap();
    assert_eq!(cache.computations(), 1);
    for _ in 0..5 {
        cache.fetch(&d, 0, &s).unwrap();
    }
    assert_eq!(cache.computations(), 1);
}

#[test]
fn cache_ignores_presentation_only_settings() {
    let d = dataset();
    let mut cache = MemoCache::new();
    let mut s = Settings::default();
    cache.fetch(&d, 0, &s).unwrap();
    assert_eq!(cache.computations(), 1);
    // interleave requests whose settings differ only in fields the engine
    // ignores: still one computation in total
    s.legend = true;
    cache.fetch(&d, 0, &s).unwrap();
    s.mass_to_charge.precision = 7;
    cache.fetch(&d, 0, &s).unwrap();
    s.retention_time.precision = 0;
    s.retention_time.units = TimeUnits::Minute;
    cache.fetch(&d, 0, &s).unwrap();
    s.visible = Some(false);
    cache.fetch(&d, 0, &s).unwrap();
    assert_eq!(cache.computations(), 1);
}

#[test]
fn cache_recomputes_on_engine_relevant_change() {
    let d = dataset();
    let mut cache = MemoCache::new();
    let mut s = Settings::default();
    cache.fetch(&d, 0, &s).unwrap();
    s.sort = Sort::MassToCharge;
    cache.fetch(&d, 0, &s).unwrap();
    assert_eq!(cache.computations(), 2);
    // returning to the first key is a new computation: the cache keeps one
    // live entry
    s.sort = Sort::RetentionTime;
    cache.fetch(&d, 0, &s).unwrap();
    assert_eq!(cache.computations(), 3);
}

#[test]
fn cached_view_matches_direct_reshape() {
    let d = dataset();
    let mut cache = MemoCache::new();
    let s = Settings::default();
    cache.fetch(&d, 0, &s).unwrap();
    let cached = cache.view().unwrap();
    let direct = ms_viewer::reshape::reshape(&d, &s).unwrap();
    assert_eq!(*cached, direct);
}

#[test]
fn get_serves_the_view_and_memoizes() {
    let d = dataset();
    let mut cache = MemoCache::new();
    let s = Settings::default();
    let rows = match cache.get(&d, 0, &s).unwrap() {
        DerivedView::GroupedByRetentionTime(rows) => rows.len(),
        other => panic!("wrong variant: {other:?}"),
    };
    assert_eq!(rows, 2);
    cache.get(&d, 0, &s).unwrap();
    assert_eq!(cache.computations(), 1);
}

#[test]
fn failed_computation_is_not_cached() {
    let broken = Dataset {
        retention_time: vec![1],
        mass_to_charge: vec![vec![1_000, 2_000]],
        signal: vec![vec![1]],
    };
    let mut cache = MemoCache::new();
    let s = Settings::default();
    let err = cache.fetch(&broken, 0, &s).unwrap_err();
    assert_eq!(err, ReshapeError::SpectrumLengthMismatch { row: 0 });
    assert!(cache.view().is_none());
    // the computation was attempted each time: errors never poison the
    // cache, and a corrected dataset (under a fresh index) succeeds
    cache.fetch(&broken, 0, &s).unwrap_err();
    assert_eq!(cache.computations(), 2);
    let fixed = dataset();
    cache.fetch(&fixed, 1, &s).unwrap();
    assert!(matches!(
        cache.view(),
        Some(DerivedView::GroupedByRetentionTime(_))
    ));
}

#[test]
fn clear_drops_the_entry() {
    let d = dataset();
    let mut cache = MemoCache::new();
    cache.fetch(&d, 0, &Settings::default()).unwrap();
    assert!(cache.view().is_some());
    cache.clear();
    assert!(cache.view().is_none());
}
