//! Tests for the data model and the small application-model types.

use ms_viewer::data::{first_and_last, Dataset, MassSpectrum, Masspectrum, Peak};
use ms_viewer::context::{Context, State};
use ms_viewer::panes::{Pane, PlotTab, SettingsTab, Tab, TablePane};
use ms_viewer::settings::{Settings, Sort, TimeUnits};
use ms_viewer::App;

fn spectrum() -> MassSpectrum {
    MassSpectrum {
        mass_to_charge: vec![50_900, 51_900, 77_900],
        signal: vec![3353, 197, 164],
    }
}

#[test]
fn spectrum_aggregates() {
    let s = spectrum();
    assert_eq!(s.len(), 3);
    assert_eq!(s.mass_to_charge_min(), Some(50_900));
    assert_eq!(s.mass_to_charge_max(), Some(77_900));
    assert_eq!(s.signal_min(), Some(164));
    assert_eq!(s.signal_max(), Some(3353));
    assert_eq!(s.signal_sum(), 3714);
}

#[test]
fn empty_spectrum_aggregates() {
    let s = MassSpectrum::new();
    assert_eq!(s.len(), 0);
    assert_eq!(s.mass_to_charge_min(), None);
    assert_eq!(s.mass_to_charge_max(), None);
    assert_eq!(s.signal_min(), None);
    assert_eq!(s.signal_max(), None);
    assert_eq!(s.signal_sum(), 0);
}

#[test]
fn spectrum_representations_round_trip() {
    let columnar = spectrum();
    let paired = columnar.zip();
    assert_eq!(
        paired.peaks,
        vec![
            Peak { mass_to_charge: 50_900, signal: 3353 },
            Peak { mass_to_charge: 51_900, signal: 197 },
            Peak { mass_to_charge: 77_900, signal: 164 },
        ]
    );
    let back = paired.unzip();
    assert_eq!(back, columnar);
}

#[test]
fn masspectrum_unzip_of_empty() {
    let paired = Masspectrum { peaks: vec![] };
    let columnar = paired.unzip();
    assert_eq!(columnar.mass_to_charge, Vec::<u64>::new());
    assert_eq!(columnar.signal, Vec::<u16>::new());
}

#[test]
fn dataset_push_scan() {
    let mut d = Dataset::new();
    assert_eq!(d.height(), 0);
    d.push_scan(100, spectrum());
    d.push_scan(200, MassSpectrum::new());
    assert_eq!(d.height(), 2);
    assert_eq!(d.retention_time, vec![100, 200]);
    assert_eq!(d.mass_to_charge[0], vec![50_900, 51_900, 77_900]);
    assert_eq!(d.mass_to_charge[1], Vec::<u64>::new());
    assert_eq!(d.signal[0], vec![3353, 197, 164]);
}

#[test]
fn first_and_last_summary() {
    let empty: Vec<u16> = vec![];
    let summary = first_and_last(&empty);
    assert_eq!(summary.first, None);
    assert_eq!(summary.last, None);
    let one = first_and_last(&vec![5u16]);
    assert_eq!(one.first, Some(5));
    assert_eq!(one.last, Some(5));
    let many = first_and_last(&vec![3353u16, 197, 164]);
    assert_eq!(many.first, Some(3353));
    assert_eq!(many.last, Some(164));
}

#[test]
fn sort_axis_labels() {
    assert_eq!(Sort::RetentionTime.display(), "Retention time");
    assert_eq!(Sort::MassToCharge.display(), "Mass to charge");
    assert_eq!(Sort::RetentionTime.description(), "Sort by retention time column");
    assert_eq!(Sort::MassToCharge.description(), "Sort by mass to charge column");
    assert_eq!(Sort::default(), Sort::RetentionTime);
}

#[test]
fn settings_defaults() {
    let s = Settings::default();
    assert!(!s.explode);
    assert!(!s.filter_null);
    assert_eq!(s.mass_to_charge.precision, 1);
    assert_eq!(s.retention_time.precision, 2);
    assert_eq!(s.retention_time.units, TimeUnits::Second);
    assert_eq!(s.sort, Sort::RetentionTime);
    assert!(!s.legend);
    assert_eq!(s.visible, None);
}

#[test]
fn state_selection() {
    let mut state = State::new();
    assert!(state.current().is_none());
    state.add_dataset(Dataset::new());
    let mut second = Dataset::new();
    second.push_scan(1, MassSpectrum::new());
    state.add_dataset(second);
    assert_eq!(state.current().unwrap().height(), 0);
    state.select(1);
    assert_eq!(state.current().unwrap().height(), 1);
}

#[test]
fn panes_and_tabs() {
    let table = TablePane { data_frame: Dataset::new(), settings: Settings::default() };
    let pane = Pane::Table(table);
    assert_eq!(pane.title(), "Table");
    assert_eq!(pane.data_frame().height(), 0);
    assert!(!pane.settings().explode);
    assert_eq!(Tab::Plot.sign(), "📊");
    assert_eq!(Tab::Table.sign(), "T");
    assert_eq!(Tab::Plot.title(), "Plot");
    assert_eq!(Tab::Table.title(), "Table");
}

#[test]
fn app_panes() {
    let mut app = App::default();
    assert!(app.reactive);
    assert!(app.left_panel);
    assert_eq!(app.panes.len(), 0);
    app.insert_pane(Pane::Table(TablePane {
        data_frame: Dataset::new(),
        settings: Settings::default(),
    }));
    app.insert_pane(Pane::Plot(ms_viewer::panes::PlotPane {
        data_frame: Dataset::new(),
        settings: Settings::default(),
    }));
    assert_eq!(app.panes.len(), 2);
    app.close_pane(0);
    assert_eq!(app.panes.len(), 1);
    assert_eq!(app.panes[0].title(), "Plot");
}

#[test]
fn tab_context_wrappers() {
    let plot = PlotTab::new(Context::default());
    assert_eq!(plot.context.state.index, 0);
    let settings_tab = SettingsTab::new(Context::default());
    assert!(!settings_tab.context.settings.legend);
}
