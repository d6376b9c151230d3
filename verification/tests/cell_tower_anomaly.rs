use rayhunter::cell_tower_anomaly::{
    CellTowerAnomalyAnalyzer, EventDetail, EventType, InformationElement, MIN_RSRP_SAMPLES,
    NEIGHBOR_STREAK_THRESHOLD, RSRP_WINDOW,
};

fn ts() -> i64 {
    chrono::Utc::now().timestamp()
}

/// An ML1 serving-cell measurement; RSRP goes in as dBm and is carried in
/// sixteenths of a dBm, the modem's resolution.
fn serving_ie(pci: u16, rsrp_dbm: f32) -> InformationElement {
    InformationElement::Ml1ServingCell { pci, rsrp: (rsrp_dbm * 16.0).round() as i32 }
}

fn neighbors_ie(n_cells: usize) -> InformationElement {
    InformationElement::Ml1NeighborCells { neighbor_cells: n_cells }
}

fn bits(value: u64, width: usize) -> Vec<bool> {
    (0..width).map(|i| (value >> (width - 1 - i)) & 1 == 1).collect()
}

fn sib1_ie(plmns: &[&str], tac: u16, eci: u32) -> InformationElement {
    InformationElement::Sib1 {
        plmns: plmns.iter().map(|p| p.to_string()).collect(),
        tracking_area_code: bits(tac as u64, 16),
        cell_identity: bits(eci as u64, 28),
    }
}

#[test]
fn flags_a_strong_stable_signal() {
    let mut analyzer = CellTowerAnomalyAnalyzer::new();
    let mut events = vec![];
    for _ in 0..MIN_RSRP_SAMPLES {
        events.push(analyzer.analyze_information_element(&serving_ie(99, -60.0), 0, ts()));
    }
    assert_eq!(
        events.iter().filter(|e| e.is_some()).count(),
        1,
        "should fire exactly once, on the sample that crosses MIN_RSRP_SAMPLES"
    );
    let event = events.into_iter().flatten().next().unwrap();
    assert_eq!(event.event_type, EventType::Low);

    // Shouldn't re-fire for the same cell once already flagged.
    for _ in 0..5 {
        assert!(
            analyzer
                .analyze_information_element(&serving_ie(99, -60.0), 0, ts())
                .is_none()
        );
    }
}

#[test]
fn does_not_flag_a_weak_signal() {
    let mut analyzer = CellTowerAnomalyAnalyzer::new();
    for _ in 0..MIN_RSRP_SAMPLES + 5 {
        assert!(
            analyzer
                .analyze_information_element(&serving_ie(99, -101.25), 0, ts())
                .is_none()
        );
    }
}

#[test]
fn does_not_flag_an_unstable_strong_signal() {
    let mut analyzer = CellTowerAnomalyAnalyzer::new();
    for i in 0..MIN_RSRP_SAMPLES + 5 {
        // Alternates between -60 and -50 dBm: strong, but not stable.
        let rsrp = if i % 2 == 0 { -60.0 } else { -50.0 };
        assert!(
            analyzer
                .analyze_information_element(&serving_ie(99, rsrp), 0, ts())
                .is_none()
        );
    }
}

#[test]
fn a_new_pci_resets_the_baseline() {
    let mut analyzer = CellTowerAnomalyAnalyzer::new();
    for _ in 0..MIN_RSRP_SAMPLES {
        analyzer.analyze_information_element(&serving_ie(1, -60.0), 0, ts());
    }
    // Handover to a new cell: even though it's also strong, the window
    // should reset rather than immediately firing on stale samples.
    assert!(
        analyzer
            .analyze_information_element(&serving_ie(2, -60.0), 0, ts())
            .is_none()
    );
}

#[test]
fn flags_a_persistently_empty_neighbor_list() {
    let mut analyzer = CellTowerAnomalyAnalyzer::new();
    let mut events = vec![];
    for _ in 0..NEIGHBOR_STREAK_THRESHOLD {
        events.push(analyzer.analyze_information_element(&neighbors_ie(0), 0, ts()));
    }
    assert_eq!(events.iter().filter(|e| e.is_some()).count(), 1);
    let event = events.into_iter().flatten().next().unwrap();
    assert_eq!(event.event_type, EventType::Informational);
}

#[test]
fn a_normal_neighbor_report_resets_the_streak() {
    let mut analyzer = CellTowerAnomalyAnalyzer::new();
    for _ in 0..(NEIGHBOR_STREAK_THRESHOLD - 1) {
        analyzer.analyze_information_element(&neighbors_ie(0), 0, ts());
    }
    assert!(
        analyzer
            .analyze_information_element(&neighbors_ie(5), 0, ts())
            .is_none()
    );
    for _ in 0..(NEIGHBOR_STREAK_THRESHOLD - 1) {
        assert!(
            analyzer
                .analyze_information_element(&neighbors_ie(0), 0, ts())
                .is_none()
        );
    }
}

#[test]
fn escalates_when_both_signals_are_active() {
    let mut analyzer = CellTowerAnomalyAnalyzer::new();
    for _ in 0..MIN_RSRP_SAMPLES {
        analyzer.analyze_information_element(&serving_ie(1, -60.0), 0, ts());
    }
    let mut events = vec![];
    for _ in 0..NEIGHBOR_STREAK_THRESHOLD {
        events.push(analyzer.analyze_information_element(&neighbors_ie(0), 0, ts()));
    }
    let event = events.into_iter().flatten().next().unwrap();
    assert_eq!(
        event.event_type,
        EventType::Medium,
        "should escalate above Informational once the signal anomaly is also active"
    );
}

#[test]
fn signal_anomaly_escalates_after_sparse_neighbors() {
    let mut analyzer = CellTowerAnomalyAnalyzer::new();
    for _ in 0..NEIGHBOR_STREAK_THRESHOLD {
        analyzer.analyze_information_element(&neighbors_ie(1), 0, ts());
    }
    let mut events = vec![];
    for _ in 0..MIN_RSRP_SAMPLES {
        events.push(analyzer.analyze_information_element(&serving_ie(7, -60.0), 0, ts()));
    }
    assert_eq!(events.iter().filter(|e| e.is_some()).count(), 1);
    assert!(events[MIN_RSRP_SAMPLES - 1].is_some());
    let event = events.into_iter().flatten().next().unwrap();
    assert_eq!(event.event_type, EventType::Medium);
}

#[test]
fn signal_event_reports_the_window() {
    let mut analyzer = CellTowerAnomalyAnalyzer::new();
    let mut last = None;
    for i in 0..MIN_RSRP_SAMPLES {
        // -60 dBm and -59.5 dBm alternately: 0.5 dB of spread.
        let rsrp = if i % 2 == 0 { -60.0 } else { -59.5 };
        last = analyzer.analyze_information_element(&serving_ie(42, rsrp), 0, ts());
    }
    let event = last.expect("fires on the eighth sample");
    assert_eq!(event.event_type, EventType::Low);
    match event.detail {
        EventDetail::StrongStableSignal { pci, cell, rsrp_sum, samples, spread } => {
            assert_eq!(pci, 42);
            assert_eq!(cell, "cell identity not yet seen");
            assert_eq!(rsrp_sum, 4 * -960 + 4 * -952);
            assert_eq!(samples, 8);
            assert_eq!(spread, 8);
        }
        other => panic!("unexpected detail {other:?}"),
    }
}

#[test]
fn window_slides_past_weak_samples() {
    let mut analyzer = CellTowerAnomalyAnalyzer::new();
    for _ in 0..RSRP_WINDOW {
        assert!(analyzer.analyze_information_element(&serving_ie(3, -100.0), 0, ts()).is_none());
    }
    // The weak samples leave the window one by one; only once all of them
    // are gone is the signal stable enough.
    for k in 1..=RSRP_WINDOW {
        let event = analyzer.analyze_information_element(&serving_ie(3, -60.0), 0, ts());
        assert_eq!(event.is_some(), k == RSRP_WINDOW, "sample {k}");
    }
}

#[test]
fn a_mean_of_exactly_minus_65_dbm_is_not_strong() {
    let mut analyzer = CellTowerAnomalyAnalyzer::new();
    for _ in 0..MIN_RSRP_SAMPLES + 4 {
        assert!(analyzer.analyze_information_element(&serving_ie(5, -65.0), 0, ts()).is_none());
    }
    let mut analyzer = CellTowerAnomalyAnalyzer::new();
    let mut fired = 0;
    for _ in 0..MIN_RSRP_SAMPLES {
        if analyzer.analyze_information_element(&serving_ie(5, -64.9375), 0, ts()).is_some() {
            fired += 1;
        }
    }
    assert_eq!(fired, 1);
}

#[test]
fn a_spread_of_exactly_3_db_is_stable() {
    let mut analyzer = CellTowerAnomalyAnalyzer::new();
    let mut events = vec![];
    for i in 0..MIN_RSRP_SAMPLES {
        let rsrp = if i % 2 == 0 { -60.0 } else { -57.0 };
        events.push(analyzer.analyze_information_element(&serving_ie(1, rsrp), 0, ts()));
    }
    assert!(events[..MIN_RSRP_SAMPLES - 1].iter().all(|e| e.is_none()));
    let event = events[MIN_RSRP_SAMPLES - 1].clone().expect("fires on the eighth sample");
    assert_eq!(event.event_type, EventType::Low);

    let mut analyzer = CellTowerAnomalyAnalyzer::new();
    for i in 0..MIN_RSRP_SAMPLES + 4 {
        let rsrp = if i % 2 == 0 { -60.0 } else { -56.9375 };
        assert!(analyzer.analyze_information_element(&serving_ie(5, rsrp), 0, ts()).is_none());
    }
}

#[test]
fn escalation_needs_the_signal_anomaly_to_be_current() {
    let mut analyzer = CellTowerAnomalyAnalyzer::new();
    for _ in 0..MIN_RSRP_SAMPLES {
        analyzer.analyze_information_element(&serving_ie(1, -60.0), 0, ts());
    }
    // The signal is no longer stable: 20 dB of spread in the window.
    for _ in 0..4 {
        assert!(analyzer.analyze_information_element(&serving_ie(1, -40.0), 0, ts()).is_none());
    }
    let mut events = vec![];
    for _ in 0..NEIGHBOR_STREAK_THRESHOLD {
        events.push(analyzer.analyze_information_element(&neighbors_ie(0), 0, ts()));
    }
    let event = events.into_iter().flatten().next().unwrap();
    assert_eq!(event.event_type, EventType::Informational);
}

#[test]
fn sib1_labels_later_events() {
    let mut analyzer = CellTowerAnomalyAnalyzer::new();
    assert!(analyzer
        .analyze_information_element(&sib1_ie(&["310-410", "311-480"], 8840, 41733647), 0, ts())
        .is_none());
    let mut events = vec![];
    for _ in 0..NEIGHBOR_STREAK_THRESHOLD {
        events.push(analyzer.analyze_information_element(&neighbors_ie(1), 0, ts()));
    }
    let event = events.into_iter().flatten().next().unwrap();
    match event.detail {
        EventDetail::SparseNeighbors { cell, neighbor_cells, streak } => {
            assert_eq!(cell, "PLMN 310-410/311-480 TAC 8840 ECI 41733647");
            assert_eq!(neighbor_cells, 1);
            assert_eq!(streak, 10);
        }
        other => panic!("unexpected detail {other:?}"),
    }
}

#[test]
fn cell_identity_is_read_big_endian() {
    let id = CellTowerAnomalyAnalyzer::cell_identity_from_sib1(
        vec!["001-01".to_string()],
        &bits(0xBEEF, 16),
        &bits(0x0ABC_DEF1, 28),
    );
    assert_eq!(id.tac, 0xBEEF);
    assert_eq!(id.eci, 0x0ABC_DEF1);
    assert_eq!(id.plmns, vec!["001-01".to_string()]);
    assert_eq!(id.to_string(), "PLMN 001-01 TAC 48879 ECI 180150001");

    let short = CellTowerAnomalyAnalyzer::cell_identity_from_sib1(vec![], &[true, false, true], &[true]);
    assert_eq!(short.tac, 5);
    assert_eq!(short.eci, 1);
    assert_eq!(short.to_string(), "PLMN  TAC 5 ECI 1");
}

#[test]
fn other_information_elements_are_ignored() {
    let mut analyzer = CellTowerAnomalyAnalyzer::default();
    for _ in 0..20 {
        assert!(analyzer.analyze_information_element(&InformationElement::Other, 0, ts()).is_none());
    }
}

#[test]
fn analyzer_metadata() {
    let analyzer = CellTowerAnomalyAnalyzer::new();
    assert_eq!(analyzer.get_name(), "Cell Tower Anomaly");
    assert!(analyzer.get_description().starts_with("Looks for passive cell-site-simulator behavior"));
    assert_eq!(analyzer.get_version(), 1);
}

#[test]
fn accepts_only_what_fits() {
    let analyzer = CellTowerAnomalyAnalyzer::new();
    assert!(analyzer.accepts(&sib1_ie(&["310-410"], 1, 2)));
    assert!(analyzer.accepts(&neighbors_ie(0)));
    assert!(analyzer.accepts(&serving_ie(1, -60.0)));
    let too_wide = InformationElement::Sib1 {
        plmns: vec![],
        tracking_area_code: bits(1, 17),
        cell_identity: bits(1, 28),
    };
    assert!(!analyzer.accepts(&too_wide));
    let empty = InformationElement::Sib1 {
        plmns: vec![],
        tracking_area_code: bits(1, 16),
        cell_identity: vec![],
    };
    assert!(!analyzer.accepts(&empty));
}

#[test]
fn sib1_between_measurements_changes_only_the_label() {
    let mut plain = CellTowerAnomalyAnalyzer::new();
    let mut with_sib1 = CellTowerAnomalyAnalyzer::new();
    let stream: Vec<InformationElement> = (0..MIN_RSRP_SAMPLES)
        .map(|_| serving_ie(4, -60.0))
        .chain((0..NEIGHBOR_STREAK_THRESHOLD).map(|_| neighbors_ie(0)))
        .collect();
    for (i, ie) in stream.iter().enumerate() {
        if i % 3 == 0 {
            assert!(with_sib1
                .analyze_information_element(&sib1_ie(&["310-410"], 7, i as u32), 0, ts())
                .is_none());
        }
        let a = plain.analyze_information_element(ie, 0, ts());
        let b = with_sib1.analyze_information_element(ie, 0, ts());
        assert_eq!(a.map(|e| e.event_type), b.map(|e| e.event_type), "element {i}");
    }
}
