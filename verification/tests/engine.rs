//! Scenario tests for the reshape engine.
//!
//! Mass-to-charge values are fixed-point thousandths of one m/z unit, so
//! `50.1` is written `50_100`.

use ms_viewer::data::Dataset;
use ms_viewer::model::round_to_bucket;
use ms_viewer::reshape::{reshape, DerivedView, ReshapeError};
use ms_viewer::settings::{Settings, Sort};

fn two_scan_dataset() -> Dataset {
    Dataset {
        retention_time: vec![100, 200],
        mass_to_charge: vec![vec![50_100, 50_900], vec![]],
        signal: vec![vec![10, 20], vec![]],
    }
}

fn settings(explode: bool, filter_null: bool, sort: Sort) -> Settings {
    let mut s = Settings::default();
    s.explode = explode;
    s.filter_null = filter_null;
    s.sort = sort;
    s
}

#[test]
fn grouped_by_retention_time_filters_empty_scan() {
    let dataset = two_scan_dataset();
    let view = reshape(&dataset, &settings(false, true, Sort::RetentionTime)).unwrap();
    match view {
        DerivedView::GroupedByRetentionTime(rows) => {
            assert_eq!(rows.len(), 1);
            let row = &rows[0];
            assert_eq!(row.retention_time, 100);
            assert_eq!(row.mass_to_charge_count, 2);
            assert_eq!(row.mass_to_charge_min, Some(50_100));
            assert_eq!(row.mass_to_charge_max, Some(50_900));
            assert_eq!(row.signal_count, 2);
            assert_eq!(row.signal_min, Some(10));
            assert_eq!(row.signal_max, Some(20));
            assert_eq!(row.signal_sum, 30);
        }
        other => panic!("wrong variant: {other:?}"),
    }
}

#[test]
fn grouped_by_retention_time_keeps_empty_scan_without_filter() {
    let dataset = two_scan_dataset();
    let view = reshape(&dataset, &settings(false, false, Sort::RetentionTime)).unwrap();
    match view {
        DerivedView::GroupedByRetentionTime(rows) => {
            assert_eq!(rows.len(), 2);
            let empty = &rows[1];
            assert_eq!(empty.retention_time, 200);
            assert_eq!(empty.mass_to_charge_count, 0);
            assert_eq!(empty.mass_to_charge_min, None);
            assert_eq!(empty.mass_to_charge_max, None);
            assert_eq!(empty.signal_min, None);
            assert_eq!(empty.signal_max, None);
            // the sum over an empty spectrum is zero, the policy this
            // library fixes
            assert_eq!(empty.signal_sum, 0);
        }
        other => panic!("wrong variant: {other:?}"),
    }
}

#[test]
fn exploded_by_mass_to_charge() {
    let dataset = two_scan_dataset();
    let view = reshape(&dataset, &settings(true, false, Sort::MassToCharge)).unwrap();
    match view {
        DerivedView::Exploded(rows) => {
            assert_eq!(rows.len(), 2);
            assert_eq!(rows[0].index, 0);
            assert_eq!(rows[0].retention_time, 100);
            assert_eq!(rows[0].mass_to_charge, 50_100);
            assert_eq!(rows[0].signal, 10);
            assert_eq!(rows[1].index, 1);
            assert_eq!(rows[1].retention_time, 100);
            assert_eq!(rows[1].mass_to_charge, 50_900);
            assert_eq!(rows[1].signal, 20);
        }
        other => panic!("wrong variant: {other:?}"),
    }
}

#[test]
fn grouped_by_mass_to_charge_collects_nearby_peaks_into_one_bucket() {
    // two scans, one peak each, 50.1 and 49.8: both round to bucket 50
    let dataset = Dataset {
        retention_time: vec![100, 200],
        mass_to_charge: vec![vec![50_100], vec![49_800]],
        signal: vec![vec![7], vec![9]],
    };
    let view = reshape(&dataset, &settings(false, false, Sort::MassToCharge)).unwrap();
    match view {
        DerivedView::GroupedByMassToCharge(rows) => {
            assert_eq!(rows.len(), 1);
            let row = &rows[0];
            assert_eq!(row.mass_to_charge, 50);
            assert_eq!(row.count, 2);
            assert_eq!(row.chromatogram.retention_time, vec![100, 200]);
            assert_eq!(row.chromatogram.signal, vec![7, 9]);
            assert_eq!(row.retention_time_min, 100);
            assert_eq!(row.retention_time_max, 200);
            assert_eq!(row.signal_min, 7);
            assert_eq!(row.signal_max, 9);
            assert_eq!(row.signal_sum, 16);
        }
        other => panic!("wrong variant: {other:?}"),
    }
}

#[test]
fn grouped_by_mass_to_charge_sorts_buckets_ascending() {
    let dataset = Dataset {
        retention_time: vec![100],
        mass_to_charge: vec![vec![77_900, 50_900, 51_900]],
        signal: vec![vec![164, 3353, 197]],
    };
    let view = reshape(&dataset, &settings(false, false, Sort::MassToCharge)).unwrap();
    match view {
        DerivedView::GroupedByMassToCharge(rows) => {
            let buckets: Vec<u64> = rows.iter().map(|r| r.mass_to_charge).collect();
            assert_eq!(buckets, vec![51, 52, 78]);
        }
        other => panic!("wrong variant: {other:?}"),
    }
}

#[test]
fn reshape_is_deterministic() {
    let dataset = two_scan_dataset();
    for s in [
        settings(false, true, Sort::RetentionTime),
        settings(false, false, Sort::MassToCharge),
        settings(true, false, Sort::RetentionTime),
        settings(true, true, Sort::MassToCharge),
    ] {
        let first = reshape(&dataset, &s).unwrap();
        let second = reshape(&dataset, &s).unwrap();
        assert_eq!(first, second);
    }
}

#[test]
fn explode_is_size_preserving() {
    let dataset = Dataset {
        retention_time: vec![1, 2, 3],
        mass_to_charge: vec![vec![10_000, 20_000], vec![], vec![30_000, 40_000, 50_000]],
        signal: vec![vec![1, 2], vec![], vec![3, 4, 5]],
    };
    // post null-filter, the peak count is 2 + 3
    let view = reshape(&dataset, &settings(true, true, Sort::RetentionTime)).unwrap();
    match view {
        DerivedView::Exploded(rows) => {
            assert_eq!(rows.len(), 5);
            for (i, row) in rows.iter().enumerate() {
                assert_eq!(row.index, i);
            }
            // every exploded row's triple appears in the original nested
            // lists at the same position
            let triples: Vec<(i32, u64, u16)> = rows
                .iter()
                .map(|r| (r.retention_time, r.mass_to_charge, r.signal))
                .collect();
            assert_eq!(
                triples,
                vec![
                    (1, 10_000, 1),
                    (1, 20_000, 2),
                    (3, 30_000, 3),
                    (3, 40_000, 4),
                    (3, 50_000, 5),
                ]
            );
        }
        other => panic!("wrong variant: {other:?}"),
    }
}

#[test]
fn exploded_sort_is_stable_on_ties() {
    // equal retention times: spectrum order must be preserved
    let dataset = Dataset {
        retention_time: vec![7, 7],
        mass_to_charge: vec![vec![30_000, 10_000], vec![20_000]],
        signal: vec![vec![1, 2], vec![3]],
    };
    let view = reshape(&dataset, &settings(true, false, Sort::RetentionTime)).unwrap();
    match view {
        DerivedView::Exploded(rows) => {
            let order: Vec<u64> = rows.iter().map(|r| r.mass_to_charge).collect();
            assert_eq!(order, vec![30_000, 10_000, 20_000]);
        }
        other => panic!("wrong variant: {other:?}"),
    }
    // equal mass-to-charge: flattened order must be preserved
    let view = reshape(&dataset, &settings(true, false, Sort::MassToCharge)).unwrap();
    match view {
        DerivedView::Exploded(rows) => {
            let signals: Vec<u16> = rows.iter().map(|r| r.signal).collect();
            assert_eq!(signals, vec![2, 3, 1]);
        }
        other => panic!("wrong variant: {other:?}"),
    }
}

#[test]
fn grouped_by_retention_time_sorts_scans() {
    let dataset = Dataset {
        retention_time: vec![300, 100, 200],
        mass_to_charge: vec![vec![1_000], vec![2_000], vec![3_000]],
        signal: vec![vec![1], vec![2], vec![3]],
    };
    let view = reshape(&dataset, &settings(false, false, Sort::RetentionTime)).unwrap();
    match view {
        DerivedView::GroupedByRetentionTime(rows) => {
            let order: Vec<i32> = rows.iter().map(|r| r.retention_time).collect();
            assert_eq!(order, vec![100, 200, 300]);
        }
        other => panic!("wrong variant: {other:?}"),
    }
}

#[test]
fn empty_dataset_yields_empty_views() {
    let dataset = Dataset::new();
    for s in [
        settings(false, false, Sort::RetentionTime),
        settings(false, false, Sort::MassToCharge),
        settings(true, false, Sort::RetentionTime),
    ] {
        let view = reshape(&dataset, &s).unwrap();
        assert_eq!(view.height(), 0);
        match view {
            DerivedView::GroupedByRetentionTime(rows) => assert!(rows.is_empty()),
            DerivedView::GroupedByMassToCharge(rows) => assert!(rows.is_empty()),
            DerivedView::Exploded(rows) => assert!(rows.is_empty()),
        }
    }
}

#[test]
fn column_height_mismatch_is_reported() {
    let dataset = Dataset {
        retention_time: vec![1, 2],
        mass_to_charge: vec![vec![1_000]],
        signal: vec![vec![1]],
    };
    let err = reshape(&dataset, &Settings::default()).unwrap_err();
    assert_eq!(err, ReshapeError::ColumnHeightMismatch);
}

#[test]
fn spectrum_length_mismatch_reports_first_bad_row() {
    let dataset = Dataset {
        retention_time: vec![1, 2, 3],
        mass_to_charge: vec![vec![1_000], vec![2_000, 3_000], vec![4_000]],
        signal: vec![vec![1], vec![2], vec![3, 4]],
    };
    let err = reshape(&dataset, &Settings::default()).unwrap_err();
    assert_eq!(err, ReshapeError::SpectrumLengthMismatch { row: 1 });
}

#[test]
fn saturated_signals_sum_without_overflow() {
    let dataset = Dataset {
        retention_time: vec![1],
        mass_to_charge: vec![vec![10_000, 10_100, 10_200]],
        signal: vec![vec![u16::MAX, u16::MAX, u16::MAX]],
    };
    match reshape(&dataset, &settings(false, false, Sort::RetentionTime)).unwrap() {
        DerivedView::GroupedByRetentionTime(rows) => {
            assert_eq!(rows[0].signal_sum, 3 * u64::from(u16::MAX));
            assert_eq!(rows[0].signal_min, Some(u16::MAX));
            assert_eq!(rows[0].signal_max, Some(u16::MAX));
        }
        other => panic!("wrong variant: {other:?}"),
    }
    match reshape(&dataset, &settings(false, false, Sort::MassToCharge)).unwrap() {
        DerivedView::GroupedByMassToCharge(rows) => {
            assert_eq!(rows.len(), 1);
            assert_eq!(rows[0].signal_sum, 3 * u64::from(u16::MAX));
        }
        other => panic!("wrong variant: {other:?}"),
    }
}

#[test]
fn bucket_rounding_is_half_up_and_idempotent() {
    assert_eq!(round_to_bucket(50_100), 50);
    assert_eq!(round_to_bucket(49_800), 50);
    // the boundary: exactly half a unit rounds up
    assert_eq!(round_to_bucket(50_500), 51);
    assert_eq!(round_to_bucket(50_499), 50);
    assert_eq!(round_to_bucket(0), 0);
    // re-rounding an already-rounded value is a no-op
    for mz in [0u64, 499, 500, 50_100, 50_500, 123_456] {
        let bucket = round_to_bucket(mz);
        assert_eq!(round_to_bucket(bucket * 1000), bucket);
    }
}
