//! The reshape engine: the pure transform from a dataset and view settings
//! to one of three derived tabular views.
//!
//! * grouped by retention time: one row per scan, the spectrum kept nested,
//!   with per-scan count/min/max aggregates and the signal sum;
//! * grouped by mass-to-charge: the flattened peaks bucketed by rounded
//!   mass-to-charge, one row per bucket with its extracted ion chromatogram
//!   and per-bucket aggregates;
//! * exploded: one row per (scan, peak) pair, sorted by the chosen axis,
//!   with a stable row index attached after sorting.
//!
//! Every view is pinned to a specification-level pipeline
//! ([`reshape_view`]), so the engine is deterministic by contract.

use vstd::prelude::*;

use crate::data::{
    Dataset, ExtractedIonChromatogram, MassSpectrum, ScanG, lemma_row_sum_le_total, scans_of,
    total_signal,
};
use crate::model::{
    bucket_of, buckets_of, lemma_buckets_contains, lemma_buckets_sorted, lemma_insert_bucket_at,
    lemma_insert_bucket_found, lemma_push_drop_last, lemma_sorted_insert_at,
    lemma_stable_sorted_sorted, lemma_take_succ, max_i32, max_u16, max_u16_opt, max_u64_opt,
    min_i32, min_u16, min_u16_opt, min_u64_opt, round_to_bucket, sorted_by_key, sorted_insert,
    sorted_unique, stable_sorted, sum_u16,
};
use crate::settings::{EngineSettings, Settings, Sort, engine_of};
use vstd::pervasive::{cloned, unreached};

verus! {

// ---------------------------------------------------------------------------
// Specification-level pipeline.
// ---------------------------------------------------------------------------

/// One flattened peak, at the specification level.
pub ghost struct PeakG {
    pub retention_time: i32,
    pub mass_to_charge: u64,
    pub signal: u16,
}

/// The predicate keeping scans whose spectrum is non-empty.
pub open spec fn scan_nonempty() -> spec_fn(ScanG) -> bool {
    |s: ScanG| s.mass_to_charge.len() > 0
}

/// The visible part of a scan sequence: all of it, or only the non-empty
/// scans when the null filter is enabled.
pub open spec fn visible_of(ss: Seq<ScanG>, filter_null: bool) -> Seq<ScanG> {
    if filter_null {
        ss.filter(scan_nonempty())
    } else {
        ss
    }
}

/// The scans the engine works on: all of them, or only the non-empty ones
/// when the null filter is enabled.
pub open spec fn visible_scans(d: Dataset, filter_null: bool) -> Seq<ScanG> {
    visible_of(scans_of(d), filter_null)
}

/// The peaks of one scan, in spectrum order, each carrying the scan's
/// retention time.
pub open spec fn peaks_of_scan(s: ScanG) -> Seq<PeakG> {
    Seq::new(
        s.mass_to_charge.len(),
        |j: int|
            PeakG {
                retention_time: s.retention_time,
                mass_to_charge: s.mass_to_charge[j],
                signal: s.signal[j],
            },
    )
}

/// Flattening: every scan replaced by its peaks, scans in order, peaks in
/// spectrum order within each scan.  Scans with empty spectra vanish.
pub open spec fn flat_of(ss: Seq<ScanG>) -> Seq<PeakG>
    decreases ss.len(),
{
    if ss.len() == 0 {
        Seq::empty()
    } else {
        flat_of(ss.drop_last()) + peaks_of_scan(ss.last())
    }
}

/// The fixed-point mass-to-charge of a peak, rounded to its bucket.
pub open spec fn peak_bucket(p: PeakG) -> u64 {
    bucket_of(p.mass_to_charge as int) as u64
}

/// The sort key of a flattened peak on the chosen axis.
pub open spec fn peak_key(sort: Sort) -> spec_fn(PeakG) -> int {
    match sort {
        Sort::RetentionTime => |p: PeakG| p.retention_time as int,
        Sort::MassToCharge => |p: PeakG| p.mass_to_charge as int,
    }
}

/// The rounded bucket of every flattened peak, in order.
pub open spec fn bucket_values(ps: Seq<PeakG>) -> Seq<u64> {
    Seq::new(ps.len(), |i: int| peak_bucket(ps[i]))
}

/// The predicate keeping the peaks of one bucket.
pub open spec fn bucket_pred(b: u64) -> spec_fn(PeakG) -> bool {
    |p: PeakG| peak_bucket(p) == b
}

/// The peaks of one bucket, in flattened order: the bucket's extracted ion
/// chromatogram.
pub open spec fn eic_of(ps: Seq<PeakG>, b: u64) -> Seq<PeakG> {
    ps.filter(bucket_pred(b))
}

/// The retention-time column of a chromatogram.
pub open spec fn eic_retention_times(sel: Seq<PeakG>) -> Seq<i32> {
    Seq::new(sel.len(), |i: int| sel[i].retention_time)
}

/// The signal column of a chromatogram.
pub open spec fn eic_signals(sel: Seq<PeakG>) -> Seq<u16> {
    Seq::new(sel.len(), |i: int| sel[i].signal)
}

// ---------------------------------------------------------------------------
// Derived rows, executable and at the specification level.
// ---------------------------------------------------------------------------

/// One row of the grouped-by-retention-time view: the scan itself plus the
/// aggregate columns.  `min`/`max` aggregates of an empty spectrum are
/// `None`; its `signal_sum` is zero (the policy this library fixes).
#[derive(Debug, Clone, PartialEq)]
pub struct ScanRow {
    pub retention_time: i32,
    pub spectrum: MassSpectrum,
    pub mass_to_charge_count: usize,
    pub mass_to_charge_min: Option<u64>,
    pub mass_to_charge_max: Option<u64>,
    pub signal_count: usize,
    pub signal_min: Option<u16>,
    pub signal_max: Option<u16>,
    pub signal_sum: u64,
}

/// [`ScanRow`] at the specification level.
pub ghost struct ScanRowG {
    pub retention_time: i32,
    pub mass_to_charge: Seq<u64>,
    pub signal: Seq<u16>,
    pub mass_to_charge_count: int,
    pub mass_to_charge_min: Option<u64>,
    pub mass_to_charge_max: Option<u64>,
    pub signal_count: int,
    pub signal_min: Option<u16>,
    pub signal_max: Option<u16>,
    pub signal_sum: int,
}

impl View for ScanRow {
    type V = ScanRowG;

    open spec fn view(&self) -> ScanRowG {
        ScanRowG {
            retention_time: self.retention_time,
            mass_to_charge: self.spectrum.mass_to_charge@,
            signal: self.spectrum.signal@,
            mass_to_charge_count: self.mass_to_charge_count as int,
            mass_to_charge_min: self.mass_to_charge_min,
            mass_to_charge_max: self.mass_to_charge_max,
            signal_count: self.signal_count as int,
            signal_min: self.signal_min,
            signal_max: self.signal_max,
            signal_sum: self.signal_sum as int,
        }
    }
}

/// The grouped-by-retention-time row derived from one scan.
pub open spec fn scan_row_of(s: ScanG) -> ScanRowG {
    ScanRowG {
        retention_time: s.retention_time,
        mass_to_charge: s.mass_to_charge,
        signal: s.signal,
        mass_to_charge_count: s.mass_to_charge.len() as int,
        mass_to_charge_min: min_u64_opt(s.mass_to_charge),
        mass_to_charge_max: max_u64_opt(s.mass_to_charge),
        signal_count: s.signal.len() as int,
        signal_min: min_u16_opt(s.signal),
        signal_max: max_u16_opt(s.signal),
        signal_sum: sum_u16(s.signal),
    }
}

/// The rows derived from a sequence of scans, one each, in order.
pub open spec fn scan_rows_of(ss: Seq<ScanG>) -> Seq<ScanRowG> {
    Seq::new(ss.len(), |i: int| scan_row_of(ss[i]))
}

/// The sort key of a grouped-by-retention-time row.
pub open spec fn scan_row_key() -> spec_fn(ScanRowG) -> int {
    |r: ScanRowG| r.retention_time as int
}

/// The views of a vector of scan rows.
pub open spec fn scan_rows_view(rows: Seq<ScanRow>) -> Seq<ScanRowG> {
    Seq::new(rows.len(), |i: int| rows[i]@)
}

/// One row of the grouped-by-mass-to-charge view: a bucket, its extracted
/// ion chromatogram, and the per-bucket aggregates.  A bucket exists only
/// because at least one peak rounded into it, so its aggregates are never
/// null.
#[derive(Debug, Clone, PartialEq)]
pub struct BucketRow {
    pub mass_to_charge: u64,
    pub chromatogram: ExtractedIonChromatogram,
    pub count: usize,
    pub retention_time_min: i32,
    pub retention_time_max: i32,
    pub signal_min: u16,
    pub signal_max: u16,
    pub signal_sum: u64,
}

/// [`BucketRow`] at the specification level.
pub ghost struct BucketRowG {
    pub mass_to_charge: u64,
    pub retention_time: Seq<i32>,
    pub signal: Seq<u16>,
    pub count: int,
    pub retention_time_min: i32,
    pub retention_time_max: i32,
    pub signal_min: u16,
    pub signal_max: u16,
    pub signal_sum: int,
}

impl View for BucketRow {
    type V = BucketRowG;

    open spec fn view(&self) -> BucketRowG {
        BucketRowG {
            mass_to_charge: self.mass_to_charge,
            retention_time: self.chromatogram.retention_time@,
            signal: self.chromatogram.signal@,
            count: self.count as int,
            retention_time_min: self.retention_time_min,
            retention_time_max: self.retention_time_max,
            signal_min: self.signal_min,
            signal_max: self.signal_max,
            signal_sum: self.signal_sum as int,
        }
    }
}

/// The grouped-by-mass-to-charge row of one bucket, derived from the
/// flattened peaks.
pub open spec fn bucket_row_of(ps: Seq<PeakG>, b: u64) -> BucketRowG {
    let sel = eic_of(ps, b);
    BucketRowG {
        mass_to_charge: b,
        retention_time: eic_retention_times(sel),
        signal: eic_signals(sel),
        count: sel.len() as int,
        retention_time_min: min_i32(eic_retention_times(sel)),
        retention_time_max: max_i32(eic_retention_times(sel)),
        signal_min: min_u16(eic_signals(sel)),
        signal_max: max_u16(eic_signals(sel)),
        signal_sum: sum_u16(eic_signals(sel)),
    }
}

/// The bucket rows of the flattened peaks: one row per distinct bucket,
/// ascending.
pub open spec fn bucket_rows_of(ps: Seq<PeakG>) -> Seq<BucketRowG> {
    let bs = crate::model::buckets_of(bucket_values(ps));
    Seq::new(bs.len(), |i: int| bucket_row_of(ps, bs[i]))
}

/// The views of a vector of bucket rows.
pub open spec fn bucket_rows_view(rows: Seq<BucketRow>) -> Seq<BucketRowG> {
    Seq::new(rows.len(), |i: int| rows[i]@)
}

/// One row of the exploded view: a single peak with its scan's retention
/// time and the stable row index assigned after sorting.
#[derive(Debug, Clone, Copy, PartialEq, Eq, Structural)]
pub struct ExplodedRow {
    pub index: usize,
    pub retention_time: i32,
    pub mass_to_charge: u64,
    pub signal: u16,
}

/// [`ExplodedRow`] at the specification level.
pub ghost struct ExplodedRowG {
    pub index: int,
    pub retention_time: i32,
    pub mass_to_charge: u64,
    pub signal: u16,
}

impl View for ExplodedRow {
    type V = ExplodedRowG;

    open spec fn view(&self) -> ExplodedRowG {
        ExplodedRowG {
            index: self.index as int,
            retention_time: self.retention_time,
            mass_to_charge: self.mass_to_charge,
            signal: self.signal,
        }
    }
}

/// The exploded rows of the sorted peaks, each with its position as the
/// stable row index.
pub open spec fn exploded_rows_of(sorted: Seq<PeakG>) -> Seq<ExplodedRowG> {
    Seq::new(
        sorted.len(),
        |i: int|
            ExplodedRowG {
                index: i,
                retention_time: sorted[i].retention_time,
                mass_to_charge: sorted[i].mass_to_charge,
                signal: sorted[i].signal,
            },
    )
}

/// The views of a vector of exploded rows.
pub open spec fn exploded_rows_view(rows: Seq<ExplodedRow>) -> Seq<ExplodedRowG> {
    Seq::new(rows.len(), |i: int| rows[i]@)
}

// ---------------------------------------------------------------------------
// The derived view and its specification.
// ---------------------------------------------------------------------------

/// A derived view: the reshape output.  Which variant is produced, and so
/// which columns exist, is determined by the engine settings.
#[derive(Debug, Clone, PartialEq)]
pub enum DerivedView {
    GroupedByRetentionTime(Vec<ScanRow>),
    GroupedByMassToCharge(Vec<BucketRow>),
    Exploded(Vec<ExplodedRow>),
}

/// [`DerivedView`] at the specification level.
pub ghost enum DerivedViewG {
    GroupedByRetentionTime(Seq<ScanRowG>),
    GroupedByMassToCharge(Seq<BucketRowG>),
    Exploded(Seq<ExplodedRowG>),
}

impl View for DerivedView {
    type V = DerivedViewG;

    open spec fn view(&self) -> DerivedViewG {
        match self {
            DerivedView::GroupedByRetentionTime(rows) => DerivedViewG::GroupedByRetentionTime(
                scan_rows_view(rows@),
            ),
            DerivedView::GroupedByMassToCharge(rows) => DerivedViewG::GroupedByMassToCharge(
                bucket_rows_view(rows@),
            ),
            DerivedView::Exploded(rows) => DerivedViewG::Exploded(exploded_rows_view(rows@)),
        }
    }
}

impl DerivedView {
    /// Number of rows in the view.
    pub fn height(&self) -> (r: usize)
        ensures
            match self@ {
                DerivedViewG::GroupedByRetentionTime(rows) => r == rows.len(),
                DerivedViewG::GroupedByMassToCharge(rows) => r == rows.len(),
                DerivedViewG::Exploded(rows) => r == rows.len(),
            },
    {
        match self {
            DerivedView::GroupedByRetentionTime(rows) => rows.len(),
            DerivedView::GroupedByMassToCharge(rows) => rows.len(),
            DerivedView::Exploded(rows) => rows.len(),
        }
    }
}

/// The grouped-by-retention-time view: one row per visible scan, stably
/// sorted ascending by retention time.
pub open spec fn grouped_by_retention_time_view(d: Dataset, filter_null: bool) -> Seq<ScanRowG> {
    stable_sorted(scan_rows_of(visible_scans(d, filter_null)), scan_row_key())
}

/// The grouped-by-mass-to-charge view: one row per distinct bucket of the
/// flattened visible peaks, ascending by bucket.
pub open spec fn grouped_by_mass_to_charge_view(d: Dataset, filter_null: bool) -> Seq<BucketRowG> {
    bucket_rows_of(flat_of(visible_scans(d, filter_null)))
}

/// The exploded view: the flattened visible peaks, stably sorted by the
/// chosen axis, indexed after sorting.
pub open spec fn exploded_view(d: Dataset, filter_null: bool, sort: Sort) -> Seq<ExplodedRowG> {
    exploded_rows_of(stable_sorted(flat_of(visible_scans(d, filter_null)), peak_key(sort)))
}

/// What [`reshape`] returns for a consistent dataset: a function of the
/// dataset and the engine-relevant settings alone.
pub open spec fn reshape_view(d: Dataset, e: EngineSettings) -> DerivedViewG {
    if e.explode {
        DerivedViewG::Exploded(exploded_view(d, e.filter_null, e.sort))
    } else {
        match e.sort {
            Sort::RetentionTime => DerivedViewG::GroupedByRetentionTime(
                grouped_by_retention_time_view(d, e.filter_null),
            ),
            Sort::MassToCharge => DerivedViewG::GroupedByMassToCharge(
                grouped_by_mass_to_charge_view(d, e.filter_null),
            ),
        }
    }
}

// ---------------------------------------------------------------------------
// Grouped by retention time.
// ---------------------------------------------------------------------------

/// Appending a scan appends it to the visible scans, unless the null filter
/// drops it.
proof fn lemma_visible_push(ss: Seq<ScanG>, x: ScanG, filter_null: bool)
    ensures
        visible_of(ss.push(x), filter_null) == if !filter_null || x.mass_to_charge.len() > 0 {
            visible_of(ss, filter_null).push(x)
        } else {
            visible_of(ss, filter_null)
        },
{
    reveal(Seq::filter);
    broadcast use crate::model::lemma_push_drop_last;

}

/// Copies a mass-to-charge column.
fn copy_u64s(v: &Vec<u64>) -> (r: Vec<u64>)
    ensures
        r@ == v@,
{
    let r = v.clone();
    proof {
        assert forall|k: int| 0 <= k < v@.len() implies r@[k] == v@[k] by {
            assert(cloned::<u64>(v@[k], r@[k]));
        }
        assert(r@ =~= v@);
    }
    r
}

/// Copies a signal column.
fn copy_u16s(v: &Vec<u16>) -> (r: Vec<u16>)
    ensures
        r@ == v@,
{
    let r = v.clone();
    proof {
        assert forall|k: int| 0 <= k < v@.len() implies r@[k] == v@[k] by {
            assert(cloned::<u16>(v@[k], r@[k]));
        }
        assert(r@ =~= v@);
    }
    r
}

/// Builds the grouped-by-retention-time row of scan `i`: the scan's columns
/// with the count, min, max and sum aggregates beside them.
fn make_scan_row(d: &Dataset, i: usize) -> (row: ScanRow)
    requires
        d.consistent(),
        i < d.height_spec(),
        total_signal(*d) <= u64::MAX,
    ensures
        row@ == scan_row_of(scans_of(*d)[i as int]),
{
    proof {
        lemma_row_sum_le_total(d.signal@, i as int);
        assert(d.row_matches(i as int));
    }
    let mass_to_charge = copy_u64s(&d.mass_to_charge[i]);
    let signal = copy_u16s(&d.signal[i]);
    let count = mass_to_charge.len();
    let signal_count = signal.len();
    let spectrum = MassSpectrum { mass_to_charge, signal };
    let row = ScanRow {
        retention_time: d.retention_time[i],
        mass_to_charge_count: count,
        mass_to_charge_min: spectrum.mass_to_charge_min(),
        mass_to_charge_max: spectrum.mass_to_charge_max(),
        signal_count,
        signal_min: spectrum.signal_min(),
        signal_max: spectrum.signal_max(),
        signal_sum: spectrum.signal_sum(),
        spectrum,
    };
    row
}

/// Builds one row per visible scan, in scan order.
fn collect_scan_rows(d: &Dataset, filter_null: bool) -> (rows: Vec<ScanRow>)
    requires
        d.consistent(),
        total_signal(*d) <= u64::MAX,
    ensures
        scan_rows_view(rows@) == scan_rows_of(visible_scans(*d, filter_null)),
{
    let ghost scans = scans_of(*d);
    let mut rows: Vec<ScanRow> = Vec::new();
    let mut i: usize = 0;
    proof {
        assert(scans.take(0) =~= Seq::<ScanG>::empty());
        assert(scan_rows_view(rows@) =~= scan_rows_of(visible_of(scans.take(0), filter_null)));
    }
    while i < d.retention_time.len()
        invariant
            d.consistent(),
            total_signal(*d) <= u64::MAX,
            0 <= i <= d.retention_time@.len(),
            scans == scans_of(*d),
            scan_rows_view(rows@) == scan_rows_of(visible_of(scans.take(i as int), filter_null)),
        decreases d.retention_time@.len() - i,
    {
        let ghost pre = rows@;
        proof {
            lemma_take_succ(scans, i as int);
            assert(scans.take(i as int + 1) =~= scans.take(i as int).push(scans[i as int]));
            lemma_visible_push(scans.take(i as int), scans[i as int], filter_null);
            assert(scans[i as int].mass_to_charge == d.mass_to_charge@[i as int]@);
        }
        let keep = !filter_null || d.mass_to_charge[i].len() > 0;
        if keep {
            let row = make_scan_row(d, i);
            rows.push(row);
            proof {
                let vis_pre = visible_of(scans.take(i as int), filter_null);
                let vis_post = visible_of(scans.take(i as int + 1), filter_null);
                assert(vis_post == vis_pre.push(scans[i as int]));
                assert(scan_rows_view(pre).len() == pre.len());
                assert(scan_rows_of(vis_pre).len() == vis_pre.len());
                assert(pre.len() == vis_pre.len());
                assert(rows@ == pre.push(row));
                assert forall|m: int|
                    0 <= m < rows@.len() implies scan_rows_view(rows@)[m] == scan_rows_of(
                    vis_post,
                )[m] by {
                    assert(scan_rows_view(rows@)[m] == rows@[m]@);
                    assert(scan_rows_of(vis_post)[m] == scan_row_of(vis_post[m]));
                    if m < pre.len() {
                        assert(rows@[m] == pre[m]);
                        assert(vis_post[m] == vis_pre[m]);
                        assert(scan_rows_view(pre)[m] == scan_rows_of(vis_pre)[m]);
                        assert(pre[m]@ == scan_row_of(vis_pre[m]));
                    } else {
                        assert(m == pre.len() as int);
                        assert(rows@[m] == row);
                        assert(vis_post[m] == scans[i as int]);
                    }
                }
                assert(scan_rows_view(rows@) =~= scan_rows_of(vis_post));
            }
        } else {
            proof {
                assert(visible_of(scans.take(i as int + 1), filter_null) == visible_of(
                    scans.take(i as int),
                    filter_null,
                ));
            }
        }
        i += 1;
    }
    proof {
        assert(scans.take(d.retention_time@.len() as int) =~= scans);
    }
    rows
}

/// Inserts a row into a vector sorted by retention time, after every row
/// whose retention time does not exceed the new row's.
#[verifier::rlimit(50)]
fn insert_scan_row(out: &mut Vec<ScanRow>, x: ScanRow)
    requires
        sorted_by_key(scan_rows_view(old(out)@), scan_row_key()),
    ensures
        scan_rows_view(final(out)@) == sorted_insert(
            scan_rows_view(old(out)@),
            x@,
            scan_row_key(),
        ),
{
    let ghost s = scan_rows_view(out@);
    let ghost key = scan_row_key();
    let mut j: usize = out.len();
    while j > 0 && out[j - 1].retention_time > x.retention_time
        invariant
            0 <= j <= out@.len(),
            s == scan_rows_view(out@),
            forall|i: int| j <= i < s.len() ==> (#[trigger] s[i]).retention_time
                > x@.retention_time,
        decreases j,
    {
        j -= 1;
    }
    proof {
        assert forall|i: int| 0 <= i < j implies key(#[trigger] s[i]) <= key(x@) by {
            if i < j - 1 {
                assert(key(s[i]) <= key(s[j - 1]));
            }
        }
        assert(forall|i: int| j <= i < s.len() ==> key(#[trigger] s[i]) > key(x@));
        lemma_sorted_insert_at(s, x@, key, j as int);
    }
    out.insert(j, x);
    proof {
        let t = s.insert(j as int, x@);
        s.insert_ensures(j as int, x@);
        old(out)@.insert_ensures(j as int, x);
        assert forall|i: int| 0 <= i < out@.len() implies scan_rows_view(out@)[i] == t[i] by {
            assert(scan_rows_view(out@)[i] == out@[i]@);
            if i < j {
                assert(out@[i] == old(out)@[i]);
                assert(t[i] == s[i]);
            } else if i == j {
                assert(out@[i] == x);
                assert(t[i] == x@);
            } else {
                assert(out@[i] == old(out)@[i - 1]);
                assert(t[i] == s[i - 1]);
            }
        }
        assert(scan_rows_view(out@) =~= t);
    }
}

/// Stable insertion sort of the rows by retention time: rows are taken in
/// order and each is placed after every row of equal or smaller key, so
/// ties keep their original relative order.
fn sort_scan_rows(rows: Vec<ScanRow>) -> (r: Vec<ScanRow>)
    ensures
        scan_rows_view(r@) == stable_sorted(scan_rows_view(rows@), scan_row_key()),
{
    let ghost orig = scan_rows_view(rows@);
    let mut rest = rows;
    let mut out: Vec<ScanRow> = Vec::new();
    proof {
        assert(orig.skip(0) =~= orig);
        assert(orig.take(0) =~= Seq::<ScanRowG>::empty());
        assert(scan_rows_view(out@) =~= stable_sorted(orig.take(0), scan_row_key()));
    }
    while rest.len() > 0
        invariant
            scan_rows_view(rest@) == orig.skip(orig.len() - rest@.len()),
            rest@.len() <= orig.len(),
            scan_rows_view(out@) == stable_sorted(
                orig.take(orig.len() - rest@.len()),
                scan_row_key(),
            ),
        decreases rest@.len(),
    {
        let ghost k = orig.len() - rest@.len();
        let ghost pre = rest@;
        let x = rest.remove(0);
        proof {
            lemma_stable_sorted_sorted(orig.take(k), scan_row_key());
            assert(x@ == scan_rows_view(pre)[0]);
            assert(x@ == orig[k]);
            assert(scan_rows_view(rest@) =~= orig.skip(k + 1)) by {
                assert forall|i: int| 0 <= i < rest@.len() implies scan_rows_view(rest@)[i]
                    == orig.skip(k + 1)[i] by {
                    assert(rest@[i] == pre[i + 1]);
                    assert(scan_rows_view(pre)[i + 1] == orig.skip(k)[i + 1]);
                }
            }
        }
        insert_scan_row(&mut out, x);
        proof {
            lemma_take_succ(orig, k);
            assert(scan_rows_view(out@) == stable_sorted(orig.take(k + 1), scan_row_key()));
        }
    }
    proof {
        assert(orig.take(orig.len() as int) =~= orig);
    }
    out
}

/// The grouped-by-retention-time branch: one row per visible scan with the
/// per-scan aggregates, stably sorted ascending by retention time.
pub fn grouped_by_retention_time(d: &Dataset, filter_null: bool) -> (rows: Vec<ScanRow>)
    requires
        d.consistent(),
        total_signal(*d) <= u64::MAX,
    ensures
        scan_rows_view(rows@) == grouped_by_retention_time_view(*d, filter_null),
{
    let collected = collect_scan_rows(d, filter_null);
    sort_scan_rows(collected)
}

// ---------------------------------------------------------------------------
// Exploded.
// ---------------------------------------------------------------------------

/// One flattened peak: a scan's retention time with one of its
/// (mass-to-charge, signal) pairs.
#[derive(Debug, Clone, Copy, PartialEq, Eq, Structural)]
pub struct FlatPeak {
    pub retention_time: i32,
    pub mass_to_charge: u64,
    pub signal: u16,
}

impl View for FlatPeak {
    type V = PeakG;

    open spec fn view(&self) -> PeakG {
        PeakG {
            retention_time: self.retention_time,
            mass_to_charge: self.mass_to_charge,
            signal: self.signal,
        }
    }
}

/// The views of a vector of flattened peaks.
pub open spec fn flat_view(ps: Seq<FlatPeak>) -> Seq<PeakG> {
    Seq::new(ps.len(), |i: int| ps[i]@)
}

/// Appending a scan appends its peaks to the flattened sequence.
proof fn lemma_flat_push(ss: Seq<ScanG>, x: ScanG)
    ensures
        flat_of(ss.push(x)) == flat_of(ss) + peaks_of_scan(x),
{
    broadcast use crate::model::lemma_push_drop_last;

}

/// Flattens the visible scans: one [`FlatPeak`] per (scan, peak) pair, in
/// scan order, spectrum order within each scan.
fn flatten(d: &Dataset, filter_null: bool) -> (peaks: Vec<FlatPeak>)
    requires
        d.consistent(),
    ensures
        flat_view(peaks@) == flat_of(visible_scans(*d, filter_null)),
{
    let ghost scans = scans_of(*d);
    let mut peaks: Vec<FlatPeak> = Vec::new();
    let mut i: usize = 0;
    proof {
        assert(scans.take(0) =~= Seq::<ScanG>::empty());
        assert(flat_view(peaks@) =~= flat_of(visible_of(scans.take(0), filter_null)));
    }
    while i < d.retention_time.len()
        invariant
            d.consistent(),
            0 <= i <= d.retention_time@.len(),
            scans == scans_of(*d),
            flat_view(peaks@) == flat_of(visible_of(scans.take(i as int), filter_null)),
        decreases d.retention_time@.len() - i,
    {
        proof {
            lemma_take_succ(scans, i as int);
            assert(scans.take(i as int + 1) =~= scans.take(i as int).push(scans[i as int]));
            lemma_visible_push(scans.take(i as int), scans[i as int], filter_null);
            lemma_flat_push(visible_of(scans.take(i as int), filter_null), scans[i as int]);
            assert(scans[i as int].mass_to_charge == d.mass_to_charge@[i as int]@);
            assert(scans[i as int].signal == d.signal@[i as int]@);
            assert(d.row_matches(i as int));
            if filter_null && d.mass_to_charge@[i as int]@.len() == 0 {
                assert(flat_of(visible_of(scans.take(i as int + 1), filter_null)) == flat_of(
                    visible_of(scans.take(i as int), filter_null),
                ));
            }
        }
        let retention_time = d.retention_time[i];
        let row = &d.mass_to_charge[i];
        let sig = &d.signal[i];
        let ghost base = flat_of(visible_of(scans.take(i as int), filter_null));
        let ghost scan_peaks = peaks_of_scan(scans[i as int]);
        let mut j: usize = 0;
        proof {
            assert(flat_view(peaks@) =~= base + scan_peaks.take(0));
        }
        while j < row.len()
            invariant
                d.consistent(),
                i < d.retention_time@.len(),
                scans == scans_of(*d),
                row == &d.mass_to_charge@[i as int],
                sig == &d.signal@[i as int],
                retention_time == d.retention_time@[i as int],
                scan_peaks == peaks_of_scan(scans[i as int]),
                base == flat_of(visible_of(scans.take(i as int), filter_null)),
                0 <= j <= row@.len(),
                row@.len() == scan_peaks.len(),
                flat_view(peaks@) == base + scan_peaks.take(j as int),
            decreases row@.len() - j,
        {
            let ghost pre = peaks@;
            proof {
                assert(d.row_matches(i as int));
            }
            peaks.push(FlatPeak { retention_time, mass_to_charge: row[j], signal: sig[j] });
            proof {
                lemma_take_succ(scan_peaks, j as int);
                assert(scans[i as int].mass_to_charge == d.mass_to_charge@[i as int]@);
                assert(scans[i as int].signal == d.signal@[i as int]@);
                assert(scans[i as int].retention_time == d.retention_time@[i as int]);
                assert(peaks@ == pre.push(peaks@[pre.len() as int]));
                assert(peaks@[pre.len() as int]@ == scan_peaks[j as int]);
                assert(pre.len() == base.len() + j) by {
                    assert(flat_view(pre).len() == pre.len());
                }
                let stepped = base + scan_peaks.take(j as int + 1);
                assert forall|m: int| 0 <= m < peaks@.len() implies flat_view(peaks@)[m]
                    == stepped[m] by {
                    assert(flat_view(peaks@)[m] == peaks@[m]@);
                    if m < pre.len() {
                        assert(peaks@[m] == pre[m]);
                        assert(flat_view(pre)[m] == (base + scan_peaks.take(j as int))[m]);
                        if m < base.len() {
                            assert((base + scan_peaks.take(j as int))[m] == base[m]);
                            assert(stepped[m] == base[m]);
                        } else {
                            assert((base + scan_peaks.take(j as int))[m] == scan_peaks.take(
                                j as int,
                            )[m - base.len()]);
                            assert(stepped[m] == scan_peaks.take(j as int + 1)[m - base.len()]);
                            assert(scan_peaks.take(j as int + 1)[m - base.len()] == scan_peaks.take(
                                j as int,
                            )[m - base.len()]);
                        }
                    } else {
                        assert(m == pre.len() as int);
                        assert(peaks@[m]@ == scan_peaks[j as int]);
                        assert(stepped[m] == scan_peaks.take(j as int + 1)[j as int]);
                    }
                }
                assert(flat_view(peaks@) =~= stepped);
            }
            j += 1;
        }
        proof {
            assert(scan_peaks.take(scan_peaks.len() as int) =~= scan_peaks);
            if filter_null && scans[i as int].mass_to_charge.len() == 0 {
                assert(scan_peaks.len() == 0);
                assert(base + scan_peaks =~= base);
            }
            assert(flat_view(peaks@) == flat_of(visible_of(scans.take(i as int + 1), filter_null)));
        }
        i += 1;
    }
    proof {
        assert(scans.take(d.retention_time@.len() as int) =~= scans);
    }
    peaks
}

/// Whether `a` must come after `b` when sorting on the chosen axis.
fn peak_gt(a: &FlatPeak, b: &FlatPeak, sort: Sort) -> (r: bool)
    ensures
        r == (peak_key(sort)(a@) > peak_key(sort)(b@)),
{
    match sort {
        Sort::RetentionTime => a.retention_time > b.retention_time,
        Sort::MassToCharge => a.mass_to_charge > b.mass_to_charge,
    }
}

/// Inserts a peak into a vector sorted on the chosen axis, after every peak
/// whose key does not exceed the new peak's.
#[verifier::rlimit(50)]
fn insert_peak(out: &mut Vec<FlatPeak>, x: FlatPeak, sort: Sort)
    requires
        sorted_by_key(flat_view(old(out)@), peak_key(sort)),
    ensures
        flat_view(final(out)@) == sorted_insert(flat_view(old(out)@), x@, peak_key(sort)),
{
    let ghost s = flat_view(out@);
    let mut j: usize = out.len();
    while j > 0 && peak_gt(&out[j - 1], &x, sort)
        invariant
            0 <= j <= out@.len(),
            s == flat_view(out@),
            forall|i: int| j <= i < s.len() ==> peak_key(sort)(#[trigger] s[i]) > peak_key(sort)(
                x@,
            ),
        decreases j,
    {
        j -= 1;
    }
    proof {
        let key = peak_key(sort);
        assert forall|i: int| 0 <= i < j implies key(#[trigger] s[i]) <= key(x@) by {
            if i < j - 1 {
                assert(key(s[i]) <= key(s[j - 1]));
            }
        }
        lemma_sorted_insert_at(s, x@, key, j as int);
    }
    out.insert(j, x);
    proof {
        let t = s.insert(j as int, x@);
        s.insert_ensures(j as int, x@);
        old(out)@.insert_ensures(j as int, x);
        assert forall|i: int| 0 <= i < out@.len() implies flat_view(out@)[i] == t[i] by {
            assert(flat_view(out@)[i] == out@[i]@);
            if i < j {
                assert(out@[i] == old(out)@[i]);
                assert(t[i] == s[i]);
            } else if i == j {
                assert(out@[i] == x);
                assert(t[i] == x@);
            } else {
                assert(out@[i] == old(out)@[i - 1]);
                assert(t[i] == s[i - 1]);
            }
        }
        assert(flat_view(out@) =~= t);
    }
}

/// Stable insertion sort of the flattened peaks on the chosen axis: peaks
/// are taken in flattened order and each is placed after every peak of
/// equal or smaller key, so ties keep their original relative order.
fn sort_peaks(peaks: Vec<FlatPeak>, sort: Sort) -> (r: Vec<FlatPeak>)
    ensures
        flat_view(r@) == stable_sorted(flat_view(peaks@), peak_key(sort)),
{
    let ghost orig = flat_view(peaks@);
    let mut rest = peaks;
    let mut out: Vec<FlatPeak> = Vec::new();
    proof {
        assert(orig.skip(0) =~= orig);
        assert(orig.take(0) =~= Seq::<PeakG>::empty());
        assert(flat_view(out@) =~= stable_sorted(orig.take(0), peak_key(sort)));
    }
    while rest.len() > 0
        invariant
            flat_view(rest@) == orig.skip(orig.len() - rest@.len()),
            rest@.len() <= orig.len(),
            flat_view(out@) == stable_sorted(orig.take(orig.len() - rest@.len()), peak_key(sort)),
        decreases rest@.len(),
    {
        let ghost k = orig.len() - rest@.len();
        let ghost pre = rest@;
        let x = rest.remove(0);
        proof {
            lemma_stable_sorted_sorted(orig.take(k), peak_key(sort));
            assert(x@ == flat_view(pre)[0]);
            assert(x@ == orig[k]);
            assert(flat_view(rest@) =~= orig.skip(k + 1)) by {
                assert forall|i: int| 0 <= i < rest@.len() implies flat_view(rest@)[i] == orig.skip(
                    k + 1,
                )[i] by {
                    assert(rest@[i] == pre[i + 1]);
                    assert(flat_view(pre)[i + 1] == orig.skip(k)[i + 1]);
                }
            }
        }
        insert_peak(&mut out, x, sort);
        proof {
            lemma_take_succ(orig, k);
            assert(flat_view(out@) == stable_sorted(orig.take(k + 1), peak_key(sort)));
        }
    }
    proof {
        assert(orig.take(orig.len() as int) =~= orig);
    }
    out
}

/// The exploded branch: the flattened visible peaks, stably sorted on the
/// chosen axis, with the stable row index assigned after sorting.
pub fn exploded(d: &Dataset, filter_null: bool, sort: Sort) -> (rows: Vec<ExplodedRow>)
    requires
        d.consistent(),
    ensures
        exploded_rows_view(rows@) == exploded_view(*d, filter_null, sort),
{
    let flat = flatten(d, filter_null);
    let sorted = sort_peaks(flat, sort);
    let ghost sorted_view = flat_view(sorted@);
    let mut rows: Vec<ExplodedRow> = Vec::new();
    let mut i: usize = 0;
    proof {
        assert(exploded_rows_view(rows@) =~= exploded_rows_of(sorted_view).take(0));
    }
    while i < sorted.len()
        invariant
            0 <= i <= sorted@.len(),
            sorted_view == flat_view(sorted@),
            rows@.len() == i,
            exploded_rows_view(rows@) == exploded_rows_of(sorted_view).take(i as int),
        decreases sorted@.len() - i,
    {
        let ghost pre = rows@;
        let p = sorted[i];
        rows.push(
            ExplodedRow {
                index: i,
                retention_time: p.retention_time,
                mass_to_charge: p.mass_to_charge,
                signal: p.signal,
            },
        );
        proof {
            lemma_take_succ(exploded_rows_of(sorted_view), i as int);
            assert(rows@ == pre.push(rows@[pre.len() as int]));
            assert(rows@[pre.len() as int]@ == exploded_rows_of(sorted_view)[i as int]);
            assert(exploded_rows_view(rows@) =~= exploded_rows_of(sorted_view).take(i as int + 1));
        }
        i += 1;
    }
    proof {
        assert(exploded_rows_of(sorted_view).take(sorted_view.len() as int) =~= exploded_rows_of(
            sorted_view,
        ));
    }
    rows
}

// ---------------------------------------------------------------------------
// Grouped by mass-to-charge: bounding the per-bucket signal sums.
//
// Every bucket's signal sum is a sum over a subset of the flattened peaks,
// whose total equals the dataset's total signal; the engine's precondition
// bounds that total, so no per-bucket accumulator can overflow.
// ---------------------------------------------------------------------------

/// A scan's two lists have one entry per peak.
pub open spec fn scan_wf(s: ScanG) -> bool {
    s.mass_to_charge.len() == s.signal.len()
}

/// Sum of the signals of a sequence of peaks.
pub open spec fn peaks_signal_sum(ps: Seq<PeakG>) -> int
    decreases ps.len(),
{
    if ps.len() == 0 {
        0
    } else {
        peaks_signal_sum(ps.drop_last()) + ps.last().signal
    }
}

/// Sum of the signals of a sequence of scans.
pub open spec fn scans_signal_sum(ss: Seq<ScanG>) -> int
    decreases ss.len(),
{
    if ss.len() == 0 {
        0
    } else {
        scans_signal_sum(ss.drop_last()) + sum_u16(ss.last().signal)
    }
}

proof fn lemma_peaks_signal_sum_nonneg(ps: Seq<PeakG>)
    ensures
        peaks_signal_sum(ps) >= 0,
    decreases ps.len(),
{
    if ps.len() > 0 {
        lemma_peaks_signal_sum_nonneg(ps.drop_last());
    }
}

/// A peak sequence and a signal column that agree element for element have
/// the same sum.
proof fn lemma_peaks_signal_sum_eq(ps: Seq<PeakG>, t: Seq<u16>)
    requires
        ps.len() == t.len(),
        forall|i: int| 0 <= i < ps.len() ==> (#[trigger] ps[i]).signal == t[i],
    ensures
        peaks_signal_sum(ps) == sum_u16(t),
    decreases ps.len(),
{
    if ps.len() > 0 {
        assert(forall|i: int|
            0 <= i < ps.drop_last().len() ==> (#[trigger] ps.drop_last()[i]).signal
                == t.drop_last()[i]);
        lemma_peaks_signal_sum_eq(ps.drop_last(), t.drop_last());
    }
}

proof fn lemma_peaks_signal_sum_add(a: Seq<PeakG>, b: Seq<PeakG>)
    ensures
        peaks_signal_sum(a + b) == peaks_signal_sum(a) + peaks_signal_sum(b),
    decreases b.len(),
{
    if b.len() == 0 {
        assert(a + b =~= a);
    } else {
        assert((a + b).drop_last() =~= a + b.drop_last());
        assert((a + b).last() == b.last());
        lemma_peaks_signal_sum_add(a, b.drop_last());
    }
}

/// Filtering peaks cannot increase their signal sum.
proof fn lemma_filter_signal_sum_le(ps: Seq<PeakG>, pred: spec_fn(PeakG) -> bool)
    ensures
        peaks_signal_sum(ps.filter(pred)) <= peaks_signal_sum(ps),
    decreases ps.len(),
{
    reveal(Seq::filter);
    broadcast use crate::model::lemma_push_drop_last;

    if ps.len() > 0 {
        lemma_filter_signal_sum_le(ps.drop_last(), pred);
        lemma_peaks_signal_sum_nonneg(ps.drop_last().filter(pred));
    }
}

/// Flattening preserves the signal sum.
proof fn lemma_flat_signal_sum(ss: Seq<ScanG>)
    requires
        forall|i: int| 0 <= i < ss.len() ==> scan_wf(#[trigger] ss[i]),
    ensures
        peaks_signal_sum(flat_of(ss)) == scans_signal_sum(ss),
    decreases ss.len(),
{
    if ss.len() > 0 {
        assert(forall|i: int|
            0 <= i < ss.drop_last().len() ==> scan_wf(#[trigger] ss.drop_last()[i]));
        lemma_flat_signal_sum(ss.drop_last());
        lemma_peaks_signal_sum_add(flat_of(ss.drop_last()), peaks_of_scan(ss.last()));
        assert(scan_wf(ss[ss.len() - 1]));
        lemma_peaks_signal_sum_eq(peaks_of_scan(ss.last()), ss.last().signal);
    }
}

/// Filtering scans cannot increase their signal sum.
proof fn lemma_scans_filter_sum_le(ss: Seq<ScanG>)
    ensures
        scans_signal_sum(ss.filter(scan_nonempty())) <= scans_signal_sum(ss),
    decreases ss.len(),
{
    reveal(Seq::filter);
    broadcast use crate::model::lemma_push_drop_last;

    if ss.len() > 0 {
        lemma_scans_filter_sum_le(ss.drop_last());
        crate::model::lemma_sum_u16_nonneg(ss.last().signal);
    }
}

/// The visible scans of a dataset of well-formed scans are well-formed.
proof fn lemma_visible_wf(ss: Seq<ScanG>, filter_null: bool)
    requires
        forall|i: int| 0 <= i < ss.len() ==> scan_wf(#[trigger] ss[i]),
    ensures
        forall|i: int|
            0 <= i < visible_of(ss, filter_null).len() ==> scan_wf(
                #[trigger] visible_of(ss, filter_null)[i],
            ),
    decreases ss.len(),
{
    reveal(Seq::filter);
    broadcast use crate::model::lemma_push_drop_last;

    if filter_null && ss.len() > 0 {
        assert(forall|i: int|
            0 <= i < ss.drop_last().len() ==> scan_wf(#[trigger] ss.drop_last()[i]));
        lemma_visible_wf(ss.drop_last(), filter_null);
        let prev = ss.drop_last().filter(scan_nonempty());
        assert(scan_wf(ss[ss.len() - 1]));
        assert forall|i: int|
            0 <= i < visible_of(ss, filter_null).len() implies scan_wf(
            #[trigger] visible_of(ss, filter_null)[i],
        ) by {
            if scan_nonempty()(ss.last()) {
                if i < prev.len() {
                    assert(visible_of(ss, filter_null)[i] == prev[i]);
                    assert(prev[i] == visible_of(ss.drop_last(), filter_null)[i]);
                } else {
                    assert(visible_of(ss, filter_null)[i] == ss.last());
                }
            } else {
                assert(visible_of(ss, filter_null)[i] == prev[i]);
                assert(prev[i] == visible_of(ss.drop_last(), filter_null)[i]);
            }
        }
    }
}

/// A sequence of scans and a nested signal column that agree row for row
/// have the same sum.
proof fn lemma_scans_sum_eq_rows(ss: Seq<ScanG>, rows: Seq<Vec<u16>>)
    requires
        ss.len() == rows.len(),
        forall|i: int| 0 <= i < ss.len() ==> (#[trigger] ss[i]).signal == rows[i]@,
    ensures
        scans_signal_sum(ss) == crate::data::total_signal_rows(rows),
    decreases ss.len(),
{
    if ss.len() > 0 {
        assert(forall|i: int|
            0 <= i < ss.drop_last().len() ==> (#[trigger] ss.drop_last()[i]).signal
                == rows.drop_last()[i]@);
        lemma_scans_sum_eq_rows(ss.drop_last(), rows.drop_last());
        assert(ss[ss.len() - 1].signal == rows[rows.len() - 1]@);
    }
}

/// The scans of a consistent dataset are well-formed.
proof fn lemma_scans_wf(d: Dataset)
    requires
        d.consistent(),
    ensures
        forall|i: int| 0 <= i < scans_of(d).len() ==> scan_wf(#[trigger] scans_of(d)[i]),
{
    assert forall|i: int| 0 <= i < scans_of(d).len() implies scan_wf(#[trigger] scans_of(d)[i]) by {
        assert(d.row_matches(i));
    }
}

/// The signal sum of any one bucket's chromatogram is bounded by the
/// dataset's total signal.
proof fn lemma_bucket_sum_bound(d: Dataset, filter_null: bool, b: u64)
    requires
        d.consistent(),
    ensures
        sum_u16(eic_signals(eic_of(flat_of(visible_scans(d, filter_null)), b))) <= total_signal(d),
{
    let vis = visible_scans(d, filter_null);
    let flat = flat_of(vis);
    let sel = eic_of(flat, b);
    lemma_scans_wf(d);
    assert(sum_u16(eic_signals(sel)) == peaks_signal_sum(sel)) by {
        lemma_peaks_signal_sum_eq(sel, eic_signals(sel));
    }
    lemma_filter_signal_sum_le(flat, bucket_pred(b));
    lemma_visible_wf(scans_of(d), filter_null);
    lemma_flat_signal_sum(vis);
    if filter_null {
        lemma_scans_filter_sum_le(scans_of(d));
    }
    lemma_scans_sum_eq_rows(scans_of(d), d.signal@);
}

// ---------------------------------------------------------------------------
// Grouped by mass-to-charge: the grouping itself.
// ---------------------------------------------------------------------------

/// A bucket under construction: the bucket value and the chromatogram
/// collected so far.
struct BucketGroup {
    mass_to_charge: u64,
    chromatogram: ExtractedIonChromatogram,
}

/// The bucket column of the groups.
spec fn group_buckets_view(gs: Seq<BucketGroup>) -> Seq<u64> {
    Seq::new(gs.len(), |k: int| gs[k].mass_to_charge)
}

/// Every group's chromatogram is exactly its bucket's extracted ion
/// chromatogram over `ps`, and is non-empty.
spec fn groups_match(gs: Seq<BucketGroup>, ps: Seq<PeakG>) -> bool {
    forall|k: int|
        0 <= k < gs.len() ==> {
            let sel = eic_of(ps, (#[trigger] gs[k]).mass_to_charge);
            &&& gs[k].chromatogram.retention_time@ == eic_retention_times(sel)
            &&& gs[k].chromatogram.signal@ == eic_signals(sel)
            &&& gs[k].chromatogram.retention_time@.len() > 0
        }
}

/// Appending a peak extends its own bucket's chromatogram and no other.
proof fn lemma_eic_push(ps: Seq<PeakG>, x: PeakG, b: u64)
    ensures
        eic_of(ps.push(x), b) == if peak_bucket(x) == b {
            eic_of(ps, b).push(x)
        } else {
            eic_of(ps, b)
        },
{
    reveal(Seq::filter);
    broadcast use crate::model::lemma_push_drop_last;

}

/// A bucket no peak rounds into has an empty chromatogram.
proof fn lemma_eic_empty(ps: Seq<PeakG>, b: u64)
    requires
        forall|i: int| 0 <= i < ps.len() ==> peak_bucket(#[trigger] ps[i]) != b,
    ensures
        eic_of(ps, b) == Seq::<PeakG>::empty(),
    decreases ps.len(),
{
    reveal(Seq::filter);
    broadcast use crate::model::lemma_push_drop_last;

    if ps.len() > 0 {
        assert(forall|i: int|
            0 <= i < ps.drop_last().len() ==> peak_bucket(#[trigger] ps.drop_last()[i]) != b);
        lemma_eic_empty(ps.drop_last(), b);
        assert(peak_bucket(ps[ps.len() - 1]) != b);
    }
}

/// Groups the flattened peaks by their rounded mass-to-charge bucket,
/// keeping the buckets in ascending order and each bucket's chromatogram in
/// flattened order.
#[verifier::rlimit(100)]
fn group_peaks(flat: &Vec<FlatPeak>) -> (groups: Vec<BucketGroup>)
    ensures
        group_buckets_view(groups@) == buckets_of(bucket_values(flat_view(flat@))),
        groups_match(groups@, flat_view(flat@)),
{
    let ghost fv = flat_view(flat@);
    let mut groups: Vec<BucketGroup> = Vec::new();
    let mut n: usize = 0;
    proof {
        assert(fv.take(0) =~= Seq::<PeakG>::empty());
        assert(bucket_values(fv.take(0)) =~= Seq::<u64>::empty());
        assert(group_buckets_view(groups@) =~= buckets_of(bucket_values(fv.take(0))));
    }
    while n < flat.len()
        invariant
            0 <= n <= flat@.len(),
            fv == flat_view(flat@),
            group_buckets_view(groups@) == buckets_of(bucket_values(fv.take(n as int))),
            groups_match(groups@, fv.take(n as int)),
        decreases flat@.len() - n,
    {
        let ghost prefix = fv.take(n as int);
        let ghost bvs = bucket_values(prefix);
        let ghost gb = group_buckets_view(groups@);
        let p = flat[n];
        let b = round_to_bucket(p.mass_to_charge);
        let ghost next = fv.take(n as int + 1);
        proof {
            lemma_take_succ(fv, n as int);
            assert(next =~= prefix.push(fv[n as int]));
            assert(p@ == fv[n as int]);
            assert(b == peak_bucket(fv[n as int]));
            assert(bucket_values(next) =~= bvs.push(b));
            lemma_push_drop_last(bvs, b);
            assert(buckets_of(bucket_values(next)) == crate::model::insert_bucket(
                buckets_of(bvs),
                b,
            ));
            lemma_buckets_sorted(bvs);
            assert(sorted_unique(gb));
        }
        let mut j: usize = groups.len();
        while j > 0 && groups[j - 1].mass_to_charge > b
            invariant
                0 <= j <= groups@.len(),
                gb == group_buckets_view(groups@),
                forall|i: int| j <= i < gb.len() ==> gb[i] > b,
            decreases j,
        {
            proof {
                assert(gb[j - 1] == groups@[j - 1].mass_to_charge);
            }
            j -= 1;
        }
        if j > 0 && groups[j - 1].mass_to_charge == b {
            let idx = j - 1;
            let ghost pre_groups = groups@;
            let mut g = groups.remove(idx);
            let ghost old_g = g;
            g.chromatogram.push(p.retention_time, p.signal);
            let ghost g2 = g;
            groups.insert(idx, g);
            proof {
                pre_groups.remove_ensures(idx as int);
                pre_groups.remove(idx as int).insert_ensures(idx as int, g2);
                assert(old_g == pre_groups[idx as int]);
                assert(gb[idx as int] == b);
                assert(groups@ =~= pre_groups.update(idx as int, g2)) by {
                    assert forall|k: int| 0 <= k < groups@.len() implies groups@[k]
                        == pre_groups.update(idx as int, g2)[k] by {
                        if k < idx {
                            assert(groups@[k] == pre_groups.remove(idx as int)[k]);
                        } else if k == idx {
                        } else {
                            assert(groups@[k] == pre_groups.remove(idx as int)[k - 1]);
                        }
                    }
                }
                assert(group_buckets_view(groups@) =~= gb);
                lemma_insert_bucket_found(gb, b, idx as int);
                assert(group_buckets_view(groups@) == buckets_of(bucket_values(next)));
                assert forall|k: int| 0 <= k < groups@.len() implies {
                    let sel = eic_of(next, (#[trigger] groups@[k]).mass_to_charge);
                    &&& groups@[k].chromatogram.retention_time@ == eic_retention_times(sel)
                    &&& groups@[k].chromatogram.signal@ == eic_signals(sel)
                    &&& groups@[k].chromatogram.retention_time@.len() > 0
                } by {
                    lemma_eic_push(prefix, fv[n as int], groups@[k].mass_to_charge);
                    if k == idx {
                        let sel_pre = eic_of(prefix, b);
                        let sel = eic_of(next, b);
                        assert(sel == sel_pre.push(fv[n as int]));
                        assert(g2.chromatogram.retention_time@
                            == old_g.chromatogram.retention_time@.push(p.retention_time));
                        assert(g2.chromatogram.signal@ == old_g.chromatogram.signal@.push(
                            p.signal,
                        ));
                        assert(eic_retention_times(sel) =~= eic_retention_times(sel_pre).push(
                            fv[n as int].retention_time,
                        ));
                        assert(eic_signals(sel) =~= eic_signals(sel_pre).push(
                            fv[n as int].signal,
                        ));
                    } else {
                        assert(groups@[k] == pre_groups[k]);
                        assert(gb[k] == groups@[k].mass_to_charge);
                        if k < idx {
                            assert(gb[k] < gb[idx as int]);
                        } else {
                            assert(gb[idx as int] < gb[k]);
                        }
                        assert(groups@[k].mass_to_charge != b);
                    }
                }
            }
        } else {
            let ghost pre_groups = groups@;
            let mut chromatogram = ExtractedIonChromatogram::new();
            chromatogram.push(p.retention_time, p.signal);
            let group = BucketGroup { mass_to_charge: b, chromatogram };
            let ghost newg = group;
            groups.insert(j, group);
            proof {
                pre_groups.insert_ensures(j as int, newg);
                assert(forall|i: int| 0 <= i < j ==> gb[i] < b) by {
                    if j > 0 {
                        assert(gb[j - 1] == pre_groups[j - 1].mass_to_charge);
                        assert(gb[j - 1] <= b);
                        assert(gb[j - 1] != b);
                        assert forall|i: int| 0 <= i < j implies gb[i] < b by {
                            if i < j - 1 {
                                assert(gb[i] < gb[j - 1]);
                            }
                        }
                    }
                }
                lemma_insert_bucket_at(gb, b, j as int);
                assert(groups@ == pre_groups.insert(j as int, newg));
                assert(group_buckets_view(groups@) =~= gb.insert(j as int, b)) by {
                    gb.insert_ensures(j as int, b);
                    assert forall|k: int| 0 <= k < groups@.len() implies group_buckets_view(
                        groups@,
                    )[k] == gb.insert(j as int, b)[k] by {
                        if k < j {
                            assert(groups@[k] == pre_groups[k]);
                        } else if k == j {
                            assert(groups@[k] == newg);
                        } else {
                            assert(groups@[k] == pre_groups[k - 1]);
                        }
                    }
                }
                assert(group_buckets_view(groups@) == buckets_of(bucket_values(next)));
                assert(!bvs.contains(b)) by {
                    assert(!gb.contains(b)) by {
                        assert forall|i: int| 0 <= i < gb.len() implies gb[i] != b by {
                            if i < j {
                                assert(gb[i] < b);
                            }
                        }
                    }
                    lemma_buckets_contains(bvs, b);
                }
                assert(forall|i: int| 0 <= i < prefix.len() ==> peak_bucket(#[trigger] prefix[i])
                    != b) by {
                    assert forall|i: int| 0 <= i < prefix.len() implies peak_bucket(
                        #[trigger] prefix[i],
                    ) != b by {
                        if peak_bucket(prefix[i]) == b {
                            assert(bvs[i] == b);
                            assert(bvs.contains(b));
                        }
                    }
                }
                lemma_eic_empty(prefix, b);
                gb.insert_ensures(j as int, b);
                assert forall|k: int| 0 <= k < groups@.len() implies {
                    let sel = eic_of(next, (#[trigger] groups@[k]).mass_to_charge);
                    &&& groups@[k].chromatogram.retention_time@ == eic_retention_times(sel)
                    &&& groups@[k].chromatogram.signal@ == eic_signals(sel)
                    &&& groups@[k].chromatogram.retention_time@.len() > 0
                } by {
                    lemma_eic_push(prefix, fv[n as int], groups@[k].mass_to_charge);
                    if k < j {
                        assert(groups@[k] == pre_groups[k]);
                        assert(gb[k] == groups@[k].mass_to_charge);
                        assert(gb[k] < b);
                    } else if k == j {
                        assert(groups@[k] == newg);
                        let sel = eic_of(next, b);
                        assert(sel == eic_of(prefix, b).push(fv[n as int]));
                        assert(sel =~= Seq::<PeakG>::empty().push(fv[n as int]));
                        assert(sel.len() == 1);
                        assert(sel[0] == fv[n as int]);
                        assert(newg.chromatogram.retention_time@ =~= eic_retention_times(sel));
                        assert(newg.chromatogram.signal@ =~= eic_signals(sel));
                    } else {
                        assert(groups@[k] == pre_groups[k - 1]);
                        assert(gb[k - 1] == groups@[k].mass_to_charge);
                        assert(forall|i: int| j <= i < gb.len() ==> gb[i] > b);
                        assert(gb[k - 1] > b);
                    }
                }
            }
        }
        n += 1;
    }
    proof {
        assert(fv.take(flat@.len() as int) =~= fv);
    }
    groups
}

/// The grouped-by-mass-to-charge row of one finished group.
spec fn group_row_of(g: BucketGroup) -> BucketRowG {
    BucketRowG {
        mass_to_charge: g.mass_to_charge,
        retention_time: g.chromatogram.retention_time@,
        signal: g.chromatogram.signal@,
        count: g.chromatogram.retention_time@.len() as int,
        retention_time_min: min_i32(g.chromatogram.retention_time@),
        retention_time_max: max_i32(g.chromatogram.retention_time@),
        signal_min: min_u16(g.chromatogram.signal@),
        signal_max: max_u16(g.chromatogram.signal@),
        signal_sum: sum_u16(g.chromatogram.signal@),
    }
}

/// Computes the aggregate columns of every finished group.
fn aggregate_groups(groups: Vec<BucketGroup>) -> (rows: Vec<BucketRow>)
    requires
        forall|k: int|
            0 <= k < groups@.len() ==> {
                &&& (#[trigger] groups@[k]).chromatogram.retention_time@.len() > 0
                &&& groups@[k].chromatogram.signal@.len()
                    == groups@[k].chromatogram.retention_time@.len()
                &&& sum_u16(groups@[k].chromatogram.signal@) <= u64::MAX
            },
    ensures
        rows@.len() == groups@.len(),
        forall|k: int| 0 <= k < rows@.len() ==> (#[trigger] rows@[k])@ == group_row_of(groups@[k]),
{
    let ghost orig = groups@;
    let mut rest = groups;
    let mut rows: Vec<BucketRow> = Vec::new();
    while rest.len() > 0
        invariant
            forall|k: int|
                0 <= k < orig.len() ==> {
                    &&& (#[trigger] orig[k]).chromatogram.retention_time@.len() > 0
                    &&& orig[k].chromatogram.signal@.len()
                        == orig[k].chromatogram.retention_time@.len()
                    &&& sum_u16(orig[k].chromatogram.signal@) <= u64::MAX
                },
            rest@.len() <= orig.len(),
            rest@ == orig.skip(orig.len() - rest@.len()),
            rows@.len() == orig.len() - rest@.len(),
            forall|k: int|
                0 <= k < rows@.len() ==> (#[trigger] rows@[k])@ == group_row_of(orig[k]),
        decreases rest@.len(),
    {
        let ghost k = orig.len() - rest@.len();
        let ghost pre = rest@;
        let g = rest.remove(0);
        proof {
            assert(g == orig[k]);
            assert(rest@ =~= orig.skip(k + 1)) by {
                assert forall|i: int| 0 <= i < rest@.len() implies rest@[i] == orig.skip(
                    k + 1,
                )[i] by {
                    assert(rest@[i] == pre[i + 1]);
                    assert(pre[i + 1] == orig.skip(k)[i + 1]);
                }
            }
        }
        let count = g.chromatogram.len();
        let retention_time_min = match g.chromatogram.retention_time_min() {
            Some(v) => v,
            None => unreached(),
        };
        let retention_time_max = match g.chromatogram.retention_time_max() {
            Some(v) => v,
            None => unreached(),
        };
        let signal_min = match g.chromatogram.signal_min() {
            Some(v) => v,
            None => unreached(),
        };
        let signal_max = match g.chromatogram.signal_max() {
            Some(v) => v,
            None => unreached(),
        };
        let signal_sum = g.chromatogram.signal_sum();
        let row = BucketRow {
            mass_to_charge: g.mass_to_charge,
            count,
            retention_time_min,
            retention_time_max,
            signal_min,
            signal_max,
            signal_sum,
            chromatogram: g.chromatogram,
        };
        rows.push(row);
        proof {
            assert(rows@[rows@.len() - 1]@ == group_row_of(orig[k]));
        }
    }
    proof {
        assert(rows@.len() == orig.len());
    }
    rows
}

/// The grouped-by-mass-to-charge branch: the flattened visible peaks
/// grouped by rounded mass-to-charge, one row per bucket in ascending
/// order, each with its extracted ion chromatogram and aggregates.
pub fn grouped_by_mass_to_charge(d: &Dataset, filter_null: bool) -> (rows: Vec<BucketRow>)
    requires
        d.consistent(),
        total_signal(*d) <= u64::MAX,
    ensures
        bucket_rows_view(rows@) == grouped_by_mass_to_charge_view(*d, filter_null),
{
    let flat = flatten(d, filter_null);
    let ghost fv = flat_view(flat@);
    let groups = group_peaks(&flat);
    proof {
        assert forall|k: int| 0 <= k < groups@.len() implies {
            &&& (#[trigger] groups@[k]).chromatogram.retention_time@.len() > 0
            &&& groups@[k].chromatogram.signal@.len()
                == groups@[k].chromatogram.retention_time@.len()
            &&& sum_u16(groups@[k].chromatogram.signal@) <= u64::MAX
        } by {
            let b = groups@[k].mass_to_charge;
            let sel = eic_of(fv, b);
            lemma_bucket_sum_bound(*d, filter_null, b);
        }
    }
    let rows = aggregate_groups(groups);
    proof {
        let bs = buckets_of(bucket_values(fv));
        assert forall|k: int| 0 <= k < rows@.len() implies bucket_rows_view(rows@)[k]
            == bucket_rows_of(fv)[k] by {
            assert(rows@[k]@ == group_row_of(groups@[k]));
            assert(group_buckets_view(groups@)[k] == bs[k]);
            assert(groups@[k].mass_to_charge == bs[k]);
        }
        assert(bucket_rows_view(rows@) =~= bucket_rows_of(fv));
    }
    rows
}

/// A structural violation of the dataset invariant.  These are the only
/// failures of the engine; both mark a corrupted dataset.
#[derive(Debug, Clone, Copy, PartialEq, Eq, Structural)]
pub enum ReshapeError {
    /// The three top-level columns disagree on the number of scans.
    ColumnHeightMismatch,
    /// Scan `row` lists a different number of mass-to-charge values than
    /// signals.
    SpectrumLengthMismatch { row: usize },
}

/// Validates the dataset invariant, failing fast on the first violation:
/// mismatched column heights first, then the first scan whose two lists
/// disagree.
fn validate(dataset: &Dataset) -> (r: Result<(), ReshapeError>)
    ensures
        dataset.consistent() <==> r is Ok,
        !dataset.columns_match() ==> r == Err::<(), ReshapeError>(
            ReshapeError::ColumnHeightMismatch,
        ),
        dataset.columns_match() && !dataset.consistent() ==> (r matches Err(e) && e matches
            ReshapeError::SpectrumLengthMismatch { row } && row < dataset.height_spec()
            && !dataset.row_matches(row as int) && (forall|k: int|
            0 <= k < row ==> #[trigger] dataset.row_matches(k))),
{
    if dataset.mass_to_charge.len() != dataset.retention_time.len() || dataset.signal.len()
        != dataset.retention_time.len() {
        return Err(ReshapeError::ColumnHeightMismatch);
    }
    let mut i: usize = 0;
    while i < dataset.retention_time.len()
        invariant
            dataset.columns_match(),
            0 <= i <= dataset.height_spec(),
            forall|k: int| 0 <= k < i ==> #[trigger] dataset.row_matches(k),
        decreases dataset.height_spec() - i,
    {
        if dataset.mass_to_charge[i].len() != dataset.signal[i].len() {
            proof {
                assert(!dataset.row_matches(i as int));
            }
            return Err(ReshapeError::SpectrumLengthMismatch { row: i });
        }
        proof {
            assert(dataset.row_matches(i as int));
        }
        i += 1;
    }
    Ok(())
}

/// The reshape engine: the deterministic pure transform from a dataset and
/// view settings to the derived view the settings select.
///
/// The result is pinned to [`reshape_view`] over the dataset and the
/// engine-relevant projection of the settings, so the output never depends
/// on a presentation-only field.  An inconsistent dataset yields a typed
/// error, raised before any aggregate is computed; an empty dataset is not
/// an error and yields an empty view.
///
/// The precondition is a machine limit: for the two aggregating branches
/// the dataset's total signal must fit the 64-bit sum accumulators of the
/// aggregate columns.  The exploded branch computes no sums and accepts any
/// dataset.
pub fn reshape(dataset: &Dataset, settings: &Settings) -> (r: Result<DerivedView, ReshapeError>)
    requires
        engine_of(*settings).explode || total_signal(*dataset) <= u64::MAX,
    ensures
        dataset.consistent() <==> r is Ok,
        r matches Ok(v) ==> v@ == reshape_view(*dataset, engine_of(*settings)),
        !dataset.columns_match() ==> r == Err::<DerivedView, ReshapeError>(
            ReshapeError::ColumnHeightMismatch,
        ),
        dataset.columns_match() && !dataset.consistent() ==> (r matches Err(e) && e matches
            ReshapeError::SpectrumLengthMismatch { row } && row < dataset.height_spec()
            && !dataset.row_matches(row as int) && (forall|k: int|
            0 <= k < row ==> #[trigger] dataset.row_matches(k))),
{
    match validate(dataset) {
        Err(e) => Err(e),
        Ok(()) => {
            let engine = settings.engine();
            if engine.explode {
                Ok(DerivedView::Exploded(exploded(dataset, engine.filter_null, engine.sort)))
            } else {
                match engine.sort {
                    Sort::RetentionTime => Ok(
                        DerivedView::GroupedByRetentionTime(
                            grouped_by_retention_time(dataset, engine.filter_null),
                        ),
                    ),
                    Sort::MassToCharge => Ok(
                        DerivedView::GroupedByMassToCharge(
                            grouped_by_mass_to_charge(dataset, engine.filter_null),
                        ),
                    ),
                }
            }
        },
    }
}

// ---------------------------------------------------------------------------
// Laws.
// ---------------------------------------------------------------------------

/// Determinism: a derived view is pinned to [`reshape_view`], a function of
/// the dataset and the engine-relevant settings alone, so any two views
/// produced for the same dataset and settings are equal.
pub proof fn lemma_reshape_deterministic(
    d: Dataset,
    e: EngineSettings,
    v1: DerivedView,
    v2: DerivedView,
)
    requires
        v1@ == reshape_view(d, e),
        v2@ == reshape_view(d, e),
    ensures
        v1@ == v2@,
{
}

/// Total number of peaks in a sequence of scans.
pub open spec fn total_peaks(ss: Seq<ScanG>) -> int
    decreases ss.len(),
{
    if ss.len() == 0 {
        0
    } else {
        total_peaks(ss.drop_last()) + ss.last().mass_to_charge.len()
    }
}

/// Flattening yields exactly one peak per nested list entry.
pub proof fn lemma_flat_len(ss: Seq<ScanG>)
    ensures
        flat_of(ss).len() == total_peaks(ss),
    decreases ss.len(),
{
    if ss.len() > 0 {
        lemma_flat_len(ss.drop_last());
    }
}

/// The peak an exploded row displays.
pub open spec fn exploded_peak(r: ExplodedRowG) -> PeakG {
    PeakG {
        retention_time: r.retention_time,
        mass_to_charge: r.mass_to_charge,
        signal: r.signal,
    }
}

/// The peaks of the exploded rows, in row order.
pub open spec fn exploded_peaks(rows: Seq<ExplodedRowG>) -> Seq<PeakG> {
    Seq::new(rows.len(), |i: int| exploded_peak(rows[i]))
}

/// Explode is a size-preserving flattening: the exploded view has exactly
/// one row per peak of the visible scans (post null-filter), and its rows
/// are exactly the flattened peaks, rearranged by the sort.
pub proof fn lemma_explode_size(d: Dataset, filter_null: bool, sort: Sort)
    ensures
        exploded_view(d, filter_null, sort).len() == total_peaks(visible_scans(d, filter_null)),
        exploded_peaks(exploded_view(d, filter_null, sort)).to_multiset() == flat_of(
            visible_scans(d, filter_null),
        ).to_multiset(),
{
    let flat = flat_of(visible_scans(d, filter_null));
    let sorted = stable_sorted(flat, peak_key(sort));
    crate::model::lemma_stable_sorted_len(flat, peak_key(sort));
    lemma_flat_len(visible_scans(d, filter_null));
    crate::model::lemma_stable_sorted_multiset(flat, peak_key(sort));
    assert(exploded_peaks(exploded_rows_of(sorted)) =~= sorted);
}

/// Aggregate correctness for the grouped-by-retention-time view: each
/// output row's aggregates are the count, minimum, maximum and sum of that
/// row's own lists; `min`/`max` are `None` exactly when the spectrum is
/// empty (possible only with the null filter off), and the sum of an empty
/// spectrum is zero.
pub proof fn lemma_grouped_by_retention_time_aggregates(d: Dataset, filter_null: bool)
    ensures
        forall|i: int|
            0 <= i < grouped_by_retention_time_view(d, filter_null).len() ==> {
                let r = #[trigger] grouped_by_retention_time_view(d, filter_null)[i];
                &&& r.signal_sum == sum_u16(r.signal)
                &&& r.mass_to_charge_count == r.mass_to_charge.len()
                &&& r.signal_count == r.signal.len()
                &&& r.mass_to_charge_min == min_u64_opt(r.mass_to_charge)
                &&& r.mass_to_charge_max == max_u64_opt(r.mass_to_charge)
                &&& r.signal_min == min_u16_opt(r.signal)
                &&& r.signal_max == max_u16_opt(r.signal)
            },
{
    let vis = visible_scans(d, filter_null);
    let rows = scan_rows_of(vis);
    let out = grouped_by_retention_time_view(d, filter_null);
    crate::model::lemma_stable_sorted_contains(rows, scan_row_key());
    assert forall|i: int| 0 <= i < out.len() implies {
        let r = #[trigger] out[i];
        &&& r.signal_sum == sum_u16(r.signal)
        &&& r.mass_to_charge_count == r.mass_to_charge.len()
        &&& r.signal_count == r.signal.len()
        &&& r.mass_to_charge_min == min_u64_opt(r.mass_to_charge)
        &&& r.mass_to_charge_max == max_u64_opt(r.mass_to_charge)
        &&& r.signal_min == min_u16_opt(r.signal)
        &&& r.signal_max == max_u16_opt(r.signal)
    } by {
        assert(rows.contains(out[i]));
        let j = choose|j: int| 0 <= j < rows.len() && rows[j] == out[i];
        assert(rows[j] == scan_row_of(vis[j]));
    }
}

/// Sort correctness of the exploded view: the stable row index is the row's
/// position, rows are non-decreasing in the chosen sort key, and rows of
/// equal key keep their flattened order (stability).
pub proof fn lemma_exploded_sorted(d: Dataset, filter_null: bool, sort: Sort, k: int)
    ensures
        forall|i: int|
            0 <= i < exploded_view(d, filter_null, sort).len() ==> (#[trigger] exploded_view(
                d,
                filter_null,
                sort,
            )[i]).index == i,
        forall|i: int, j: int|
            0 <= i < j < exploded_view(d, filter_null, sort).len() ==> peak_key(sort)(
                exploded_peak(exploded_view(d, filter_null, sort)[i]),
            ) <= peak_key(sort)(exploded_peak(exploded_view(d, filter_null, sort)[j])),
        exploded_peaks(exploded_view(d, filter_null, sort)).filter(
            crate::model::key_eq_pred(peak_key(sort), k),
        ) == flat_of(visible_scans(d, filter_null)).filter(
            crate::model::key_eq_pred(peak_key(sort), k),
        ),
{
    let flat = flat_of(visible_scans(d, filter_null));
    let sorted = stable_sorted(flat, peak_key(sort));
    let out = exploded_view(d, filter_null, sort);
    lemma_stable_sorted_sorted(flat, peak_key(sort));
    crate::model::lemma_stable_sorted_stable(flat, peak_key(sort), k);
    assert(exploded_peaks(out) =~= sorted);
    assert forall|i: int, j: int|
        0 <= i < j < out.len() implies peak_key(sort)(exploded_peak(out[i])) <= peak_key(sort)(
        exploded_peak(out[j]),
    ) by {
        assert(exploded_peak(out[i]) == sorted[i]);
        assert(exploded_peak(out[j]) == sorted[j]);
    }
}

/// Sort correctness of the grouped-by-retention-time view: rows are
/// non-decreasing in retention time, and rows of equal retention time keep
/// their scan order (stability).
pub proof fn lemma_grouped_by_retention_time_sorted(d: Dataset, filter_null: bool, k: int)
    ensures
        forall|i: int, j: int|
            0 <= i < j < grouped_by_retention_time_view(d, filter_null).len()
                ==> (#[trigger] grouped_by_retention_time_view(d, filter_null)[i]).retention_time
                <= (#[trigger] grouped_by_retention_time_view(d, filter_null)[j]).retention_time,
        grouped_by_retention_time_view(d, filter_null).filter(
            crate::model::key_eq_pred(scan_row_key(), k),
        ) == scan_rows_of(visible_scans(d, filter_null)).filter(
            crate::model::key_eq_pred(scan_row_key(), k),
        ),
{
    let rows = scan_rows_of(visible_scans(d, filter_null));
    let out = grouped_by_retention_time_view(d, filter_null);
    lemma_stable_sorted_sorted(rows, scan_row_key());
    crate::model::lemma_stable_sorted_stable(rows, scan_row_key(), k);
    assert forall|i: int, j: int|
        0 <= i < j < out.len() implies (#[trigger] out[i]).retention_time
        <= (#[trigger] out[j]).retention_time by {
        assert(scan_row_key()(out[i]) <= scan_row_key()(out[j]));
    }
}

/// Completeness of the grouped-by-mass-to-charge view: every flattened
/// visible peak rounds into the bucket of some output row, so no peak is
/// lost by the grouping.
pub proof fn lemma_grouped_by_mass_to_charge_complete(d: Dataset, filter_null: bool)
    ensures
        forall|i: int|
            0 <= i < flat_of(visible_scans(d, filter_null)).len() ==> exists|k: int|
                0 <= k < grouped_by_mass_to_charge_view(d, filter_null).len()
                    && (#[trigger] grouped_by_mass_to_charge_view(d, filter_null)[k]).mass_to_charge
                    == peak_bucket(#[trigger] flat_of(visible_scans(d, filter_null))[i]),
{
    let flat = flat_of(visible_scans(d, filter_null));
    let bs = buckets_of(bucket_values(flat));
    let out = grouped_by_mass_to_charge_view(d, filter_null);
    assert forall|i: int| 0 <= i < flat.len() implies exists|k: int|
        0 <= k < out.len() && (#[trigger] out[k]).mass_to_charge == peak_bucket(
        #[trigger] flat[i],
    ) by {
        let b = peak_bucket(flat[i]);
        assert(bucket_values(flat)[i] == b);
        assert(bucket_values(flat).contains(b));
        lemma_buckets_contains(bucket_values(flat), b);
        let k = choose|k: int| 0 <= k < bs.len() && bs[k] == b;
        assert(out[k] == bucket_row_of(flat, bs[k]));
        assert(out[k].mass_to_charge == b);
    }
}

/// Aggregate correctness for the grouped-by-mass-to-charge view: each
/// bucket row's aggregates are the count, minimum, maximum and sum of its
/// own chromatogram, which is never empty.
pub proof fn lemma_grouped_by_mass_to_charge_aggregates(d: Dataset, filter_null: bool)
    ensures
        forall|k: int|
            0 <= k < grouped_by_mass_to_charge_view(d, filter_null).len() ==> {
                let r = #[trigger] grouped_by_mass_to_charge_view(d, filter_null)[k];
                &&& r.count == r.retention_time.len()
                &&& r.count == r.signal.len()
                &&& r.count > 0
                &&& r.retention_time_min == min_i32(r.retention_time)
                &&& r.retention_time_max == max_i32(r.retention_time)
                &&& r.signal_min == min_u16(r.signal)
                &&& r.signal_max == max_u16(r.signal)
                &&& r.signal_sum == sum_u16(r.signal)
            },
{
    broadcast use vstd::seq_lib::group_filter_ensures;

    let flat = flat_of(visible_scans(d, filter_null));
    let bs = buckets_of(bucket_values(flat));
    let out = grouped_by_mass_to_charge_view(d, filter_null);
    assert forall|k: int| 0 <= k < out.len() implies {
        let r = #[trigger] out[k];
        &&& r.count == r.retention_time.len()
        &&& r.count == r.signal.len()
        &&& r.count > 0
        &&& r.retention_time_min == min_i32(r.retention_time)
        &&& r.retention_time_max == max_i32(r.retention_time)
        &&& r.signal_min == min_u16(r.signal)
        &&& r.signal_max == max_u16(r.signal)
        &&& r.signal_sum == sum_u16(r.signal)
    } by {
        assert(out[k] == bucket_row_of(flat, bs[k]));
        let b = bs[k];
        let sel = eic_of(flat, b);
        assert(sel.len() > 0) by {
            lemma_buckets_contains(bucket_values(flat), b);
            assert(bucket_values(flat).contains(b));
            let i = choose|i: int|
                0 <= i < bucket_values(flat).len() && bucket_values(flat)[i] == b;
            assert(bucket_pred(b)(flat[i]));
            assert(flat.filter(bucket_pred(b)).contains(flat[i]));
        }
    }
}

/// Sort correctness of the grouped-by-mass-to-charge view: the bucket
/// column is strictly increasing, so buckets are ascending and never
/// repeat.
pub proof fn lemma_grouped_by_mass_to_charge_sorted(d: Dataset, filter_null: bool)
    ensures
        forall|i: int, j: int|
            0 <= i < j < grouped_by_mass_to_charge_view(d, filter_null).len()
                ==> (#[trigger] grouped_by_mass_to_charge_view(d, filter_null)[i]).mass_to_charge
                < (#[trigger] grouped_by_mass_to_charge_view(d, filter_null)[j]).mass_to_charge,
{
    let flat = flat_of(visible_scans(d, filter_null));
    let bs = buckets_of(bucket_values(flat));
    lemma_buckets_sorted(bucket_values(flat));
    let out = grouped_by_mass_to_charge_view(d, filter_null);
    assert forall|i: int, j: int|
        0 <= i < j < out.len() implies (#[trigger] out[i]).mass_to_charge
        < (#[trigger] out[j]).mass_to_charge by {
        assert(out[i] == bucket_row_of(flat, bs[i]));
        assert(out[j] == bucket_row_of(flat, bs[j]));
        assert(bs[i] < bs[j]);
    }
}

} // verus!
