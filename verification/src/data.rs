//! The columnar data model: an immutable acquisition snapshot (one
//! retention time and one spectrum per scan) and the small domain types the
//! derived views are built from.
//!
//! Mass-to-charge values are fixed-point integers: thousandths of one m/z
//! unit (see [`crate::model::MASS_SCALE`]).

use vstd::prelude::*;

use crate::model::{
    max_u16_opt, max_u64_opt, min_u16_opt, min_u64_opt, sum_u16, vec_max_u16, vec_max_u64,
    vec_min_u16, vec_min_u64, vec_sum_u16,
};

verus! {

/// One scan's spectrum in columnar form: parallel lists of fixed-point
/// mass-to-charge values and signal intensities.
#[derive(Debug, Clone, PartialEq)]
pub struct MassSpectrum {
    pub mass_to_charge: Vec<u64>,
    pub signal: Vec<u16>,
}

/// One peak of a spectrum: a fixed-point mass-to-charge value and its
/// signal intensity.
#[derive(Debug, Clone, Copy, PartialEq, Eq, Structural)]
pub struct Peak {
    pub mass_to_charge: u64,
    pub signal: u16,
}

/// One scan's spectrum in row form: a list of peaks.
#[derive(Debug, Clone, PartialEq)]
pub struct Masspectrum {
    pub peaks: Vec<Peak>,
}

/// The peaks of a columnar spectrum, in order.
pub open spec fn peaks_of_spectrum(s: MassSpectrum) -> Seq<Peak> {
    Seq::new(
        s.mass_to_charge@.len(),
        |j: int| Peak { mass_to_charge: s.mass_to_charge@[j], signal: s.signal@[j] },
    )
}

impl MassSpectrum {
    /// The two columns list one entry per peak.
    pub open spec fn wf(self) -> bool {
        self.mass_to_charge@.len() == self.signal@.len()
    }

    /// An empty spectrum.
    pub fn new() -> (r: Self)
        ensures
            r.mass_to_charge@.len() == 0,
            r.signal@.len() == 0,
            r.wf(),
    {
        MassSpectrum { mass_to_charge: Vec::new(), signal: Vec::new() }
    }

    /// Number of peaks.
    pub fn len(&self) -> (r: usize)
        ensures
            r == self.mass_to_charge@.len(),
    {
        self.mass_to_charge.len()
    }

    /// Appends one peak.
    pub fn push(&mut self, mass_to_charge: u64, signal: u16)
        ensures
            final(self).mass_to_charge@ == old(self).mass_to_charge@.push(mass_to_charge),
            final(self).signal@ == old(self).signal@.push(signal),
    {
        self.mass_to_charge.push(mass_to_charge);
        self.signal.push(signal);
    }

    /// Smallest mass-to-charge value; `None` for an empty spectrum.
    pub fn mass_to_charge_min(&self) -> (r: Option<u64>)
        ensures
            r == min_u64_opt(self.mass_to_charge@),
    {
        vec_min_u64(&self.mass_to_charge)
    }

    /// Largest mass-to-charge value; `None` for an empty spectrum.
    pub fn mass_to_charge_max(&self) -> (r: Option<u64>)
        ensures
            r == max_u64_opt(self.mass_to_charge@),
    {
        vec_max_u64(&self.mass_to_charge)
    }

    /// Smallest signal; `None` for an empty spectrum.
    pub fn signal_min(&self) -> (r: Option<u16>)
        ensures
            r == min_u16_opt(self.signal@),
    {
        vec_min_u16(&self.signal)
    }

    /// Largest signal; `None` for an empty spectrum.
    pub fn signal_max(&self) -> (r: Option<u16>)
        ensures
            r == max_u16_opt(self.signal@),
    {
        vec_max_u16(&self.signal)
    }

    /// Sum of the signals; zero for an empty spectrum.
    pub fn signal_sum(&self) -> (r: u64)
        requires
            sum_u16(self.signal@) <= u64::MAX,
        ensures
            r as int == sum_u16(self.signal@),
    {
        vec_sum_u16(&self.signal)
    }

    /// The same spectrum in row form, one [`Peak`] per entry.
    pub fn zip(&self) -> (r: Masspectrum)
        requires
            self.wf(),
        ensures
            r.peaks@ == peaks_of_spectrum(*self),
    {
        let mut peaks: Vec<Peak> = Vec::new();
        let mut i: usize = 0;
        while i < self.mass_to_charge.len()
            invariant
                self.wf(),
                0 <= i <= self.mass_to_charge@.len(),
                peaks@ == peaks_of_spectrum(*self).take(i as int),
            decreases self.mass_to_charge@.len() - i,
        {
            peaks.push(Peak { mass_to_charge: self.mass_to_charge[i], signal: self.signal[i] });
            proof {
                assert(peaks@ =~= peaks_of_spectrum(*self).take(i as int + 1));
            }
            i += 1;
        }
        proof {
            assert(peaks_of_spectrum(*self).take(i as int) =~= peaks_of_spectrum(*self));
        }
        Masspectrum { peaks }
    }
}

impl Masspectrum {
    /// The same spectrum in columnar form.
    pub fn unzip(&self) -> (r: MassSpectrum)
        ensures
            r.wf(),
            r.mass_to_charge@.len() == self.peaks@.len(),
            forall|j: int|
                0 <= j < self.peaks@.len() ==> r.mass_to_charge@[j] == (
                #[trigger] self.peaks@[j]).mass_to_charge && r.signal@[j] == self.peaks@[j].signal,
    {
        let mut r = MassSpectrum::new();
        let mut i: usize = 0;
        while i < self.peaks.len()
            invariant
                0 <= i <= self.peaks@.len(),
                r.wf(),
                r.mass_to_charge@.len() == i,
                forall|j: int|
                    0 <= j < i ==> r.mass_to_charge@[j] == (
                    #[trigger] self.peaks@[j]).mass_to_charge && r.signal@[j]
                        == self.peaks@[j].signal,
            decreases self.peaks@.len() - i,
        {
            let p = self.peaks[i];
            r.push(p.mass_to_charge, p.signal);
            i += 1;
        }
        r
    }
}

/// Pairing a well-formed columnar spectrum and splitting it again gives the
/// original columns back: the two spectrum representations are equivalent.
pub proof fn lemma_spectrum_round_trip(s: MassSpectrum, m: Masspectrum, r: MassSpectrum)
    requires
        s.wf(),
        m.peaks@ == peaks_of_spectrum(s),
        r.wf(),
        r.mass_to_charge@.len() == m.peaks@.len(),
        forall|j: int|
            0 <= j < m.peaks@.len() ==> r.mass_to_charge@[j] == (
            #[trigger] m.peaks@[j]).mass_to_charge && r.signal@[j] == m.peaks@[j].signal,
    ensures
        r.mass_to_charge@ == s.mass_to_charge@,
        r.signal@ == s.signal@,
{
    assert forall|j: int|
        0 <= j < m.peaks@.len() implies r.mass_to_charge@[j] == s.mass_to_charge@[j]
        && r.signal@[j] == s.signal@[j] by {
        assert(m.peaks@[j] == peaks_of_spectrum(s)[j]);
    }
    assert(r.mass_to_charge@ =~= s.mass_to_charge@);
    assert(r.signal@ =~= s.signal@);
}

/// An extracted ion chromatogram: for one mass-to-charge bucket, the
/// retention times and signal intensities of every peak that fell into the
/// bucket, in flattened dataset order.
#[derive(Debug, Clone, PartialEq)]
pub struct ExtractedIonChromatogram {
    pub retention_time: Vec<i32>,
    pub signal: Vec<u16>,
}

impl ExtractedIonChromatogram {
    /// The two columns list one entry per collected peak.
    pub open spec fn wf(self) -> bool {
        self.retention_time@.len() == self.signal@.len()
    }

    /// An empty chromatogram.
    pub fn new() -> (r: Self)
        ensures
            r.retention_time@.len() == 0,
            r.signal@.len() == 0,
            r.wf(),
    {
        ExtractedIonChromatogram { retention_time: Vec::new(), signal: Vec::new() }
    }

    /// Number of collected peaks.
    pub fn len(&self) -> (r: usize)
        ensures
            r == self.retention_time@.len(),
    {
        self.retention_time.len()
    }

    /// Appends one peak.
    pub fn push(&mut self, retention_time: i32, signal: u16)
        ensures
            final(self).retention_time@ == old(self).retention_time@.push(retention_time),
            final(self).signal@ == old(self).signal@.push(signal),
    {
        self.retention_time.push(retention_time);
        self.signal.push(signal);
    }

    /// Earliest retention time; `None` for an empty chromatogram.
    pub fn retention_time_min(&self) -> (r: Option<i32>)
        ensures
            r == crate::model::min_i32_opt(self.retention_time@),
    {
        crate::model::vec_min_i32(&self.retention_time)
    }

    /// Latest retention time; `None` for an empty chromatogram.
    pub fn retention_time_max(&self) -> (r: Option<i32>)
        ensures
            r == crate::model::max_i32_opt(self.retention_time@),
    {
        crate::model::vec_max_i32(&self.retention_time)
    }

    /// Smallest signal; `None` for an empty chromatogram.
    pub fn signal_min(&self) -> (r: Option<u16>)
        ensures
            r == min_u16_opt(self.signal@),
    {
        vec_min_u16(&self.signal)
    }

    /// Largest signal; `None` for an empty chromatogram.
    pub fn signal_max(&self) -> (r: Option<u16>)
        ensures
            r == max_u16_opt(self.signal@),
    {
        vec_max_u16(&self.signal)
    }

    /// Sum of the signals; zero for an empty chromatogram.
    pub fn signal_sum(&self) -> (r: u64)
        requires
            sum_u16(self.signal@) <= u64::MAX,
        ensures
            r as int == sum_u16(self.signal@),
    {
        vec_sum_u16(&self.signal)
    }
}

/// The first and last entries of a column, the summary shown for a long
/// list; both are `None` when the column is empty, and equal when it has
/// exactly one entry.
#[derive(Debug, Clone, Copy, PartialEq)]
pub struct FirstAndLast<T> {
    pub first: Option<T>,
    pub last: Option<T>,
}

/// Summarizes a column by its first and last entries.
pub fn first_and_last<T: Copy>(values: &Vec<T>) -> (r: FirstAndLast<T>)
    ensures
        values@.len() == 0 ==> r.first is None && r.last is None,
        values@.len() > 0 ==> r.first == Some(values@[0]) && r.last == Some(
            values@[values@.len() - 1],
        ),
{
    if values.len() == 0 {
        FirstAndLast { first: None, last: None }
    } else {
        FirstAndLast { first: Some(values[0]), last: Some(values[values.len() - 1]) }
    }
}

/// An immutable columnar snapshot of one acquisition: per scan, a retention
/// time and the two nested spectrum columns.
///
/// The intended invariant, [`Dataset::consistent`], is that the three
/// columns have one entry per scan and that each scan's two lists have one
/// entry per peak.  The reshape engine validates it and reports a typed
/// error instead of producing a partial view.
#[derive(Debug, Clone, PartialEq)]
pub struct Dataset {
    pub retention_time: Vec<i32>,
    pub mass_to_charge: Vec<Vec<u64>>,
    pub signal: Vec<Vec<u16>>,
}

/// One scan, at the specification level.
pub ghost struct ScanG {
    pub retention_time: i32,
    pub mass_to_charge: Seq<u64>,
    pub signal: Seq<u16>,
}

/// The scans of a dataset, in acquisition order.
pub open spec fn scans_of(d: Dataset) -> Seq<ScanG> {
    Seq::new(
        d.retention_time@.len(),
        |i: int|
            ScanG {
                retention_time: d.retention_time@[i],
                mass_to_charge: d.mass_to_charge@[i]@,
                signal: d.signal@[i]@,
            },
    )
}

/// Sum of every signal of every row of a nested signal column.
pub open spec fn total_signal_rows(rows: Seq<Vec<u16>>) -> int
    decreases rows.len(),
{
    if rows.len() == 0 {
        0
    } else {
        total_signal_rows(rows.drop_last()) + sum_u16(rows.last()@)
    }
}

/// Sum of every signal in the dataset: the bound that keeps every aggregate
/// of every derived view inside its accumulator.
pub open spec fn total_signal(d: Dataset) -> int {
    total_signal_rows(d.signal@)
}

pub proof fn lemma_total_signal_rows_nonneg(rows: Seq<Vec<u16>>)
    ensures
        total_signal_rows(rows) >= 0,
    decreases rows.len(),
{
    if rows.len() > 0 {
        lemma_total_signal_rows_nonneg(rows.drop_last());
        crate::model::lemma_sum_u16_nonneg(rows.last()@);
    }
}

/// No single row's signal sum exceeds the dataset total.
pub proof fn lemma_row_sum_le_total(rows: Seq<Vec<u16>>, i: int)
    requires
        0 <= i < rows.len(),
    ensures
        sum_u16(rows[i]@) <= total_signal_rows(rows),
    decreases rows.len(),
{
    if i == rows.len() - 1 {
        lemma_total_signal_rows_nonneg(rows.drop_last());
        assert(rows[i] == rows.last());
    } else {
        lemma_row_sum_le_total(rows.drop_last(), i);
        assert(rows.drop_last()[i] == rows[i]);
        crate::model::lemma_sum_u16_nonneg(rows.last()@);
    }
}

impl Dataset {
    /// Number of scans according to the retention-time column.
    pub open spec fn height_spec(self) -> nat {
        self.retention_time@.len()
    }

    /// The three columns list one entry per scan.
    pub open spec fn columns_match(self) -> bool {
        self.mass_to_charge@.len() == self.height_spec() && self.signal@.len()
            == self.height_spec()
    }

    /// Scan `i`'s two lists have one entry per peak.
    pub open spec fn row_matches(self, i: int) -> bool {
        self.mass_to_charge@[i]@.len() == self.signal@[i]@.len()
    }

    /// The dataset invariant: columns of equal height, and per scan, lists
    /// of equal length.
    pub open spec fn consistent(self) -> bool {
        self.columns_match() && forall|i: int|
            0 <= i < self.height_spec() ==> #[trigger] self.row_matches(i)
    }

    /// An empty dataset.
    pub fn new() -> (r: Self)
        ensures
            r.height_spec() == 0,
            r.consistent(),
            total_signal(r) == 0,
    {
        Dataset { retention_time: Vec::new(), mass_to_charge: Vec::new(), signal: Vec::new() }
    }

    /// Number of scans.
    pub fn height(&self) -> (r: usize)
        ensures
            r == self.height_spec(),
    {
        self.retention_time.len()
    }

    /// Appends one scan.
    pub fn push_scan(&mut self, retention_time: i32, spectrum: MassSpectrum)
        ensures
            final(self).retention_time@ == old(self).retention_time@.push(retention_time),
            final(self).mass_to_charge@ == old(self).mass_to_charge@.push(
                spectrum.mass_to_charge,
            ),
            final(self).signal@ == old(self).signal@.push(spectrum.signal),
            old(self).consistent() && spectrum.wf() ==> final(self).consistent(),
            total_signal(*final(self)) == total_signal(*old(self)) + sum_u16(spectrum.signal@),
    {
        let ghost prior = *self;
        self.retention_time.push(retention_time);
        let MassSpectrum { mass_to_charge, signal } = spectrum;
        self.mass_to_charge.push(mass_to_charge);
        self.signal.push(signal);
        proof {
            crate::model::lemma_push_drop_last(prior.signal@, signal);
            if prior.consistent() && spectrum.wf() {
                assert forall|i: int|
                    0 <= i < self.height_spec() implies #[trigger] self.row_matches(i) by {
                    if i < prior.height_spec() {
                        assert(prior.row_matches(i));
                    }
                }
            }
        }
    }
}

} // verus!
