use strata_index::accuracy::{
    accuracy_report, class_index, ratio, show_ratio, AccuracyReport, Band, BandMetrics, Ratio, ALL_BANDS, ALL_CLASSES,
};
use strata_index::code_plane::{call_confidence, HeuristicClass};
use strata_index::differential::SiteOutcome;
use strata_index::model::{Provenance, Uid};

fn uid(name: &str) -> Uid {
    Uid::new("ts", "t", "src/x.ts", name, "")
}

fn outcome(class: HeuristicClass, heuristic: &[&str], scip: Option<&str>) -> SiteOutcome {
    let (heuristic_provenance, _conf) = call_confidence(class);
    SiteOutcome {
        file: "src/x.ts".to_string(),
        class,
        heuristic_targets: heuristic.iter().map(|n| uid(n)).collect(),
        scip_target: scip.map(uid),
        heuristic_provenance,
    }
}

fn value(r: Ratio) -> f64 {
    if r.denom == 0 {
        1.0
    } else {
        r.numer as f64 / r.denom as f64
    }
}

fn approx(a: Ratio, b: f64) -> bool {
    (value(a) - b).abs() < 1e-9
}

#[test]
fn metric_matches_hand_computed_mix() {
    let outcomes = vec![
        outcome(HeuristicClass::BareSingle, &["foo"], Some("foo")),
        outcome(HeuristicClass::BareSingle, &["wrong"], Some("foo")),
        outcome(HeuristicClass::BareMulti, &["foo", "bar"], Some("foo")),
        outcome(HeuristicClass::UnknownReceiver, &["a", "b"], Some("c")),
        outcome(HeuristicClass::ThisMethod, &["m"], None),
    ];

    let report = accuracy_report(&outcomes);

    assert_eq!(report.covered_sites, 4);
    assert_eq!(report.uncovered_sites, 1);

    let bs = report.class(HeuristicClass::BareSingle).unwrap();
    assert_eq!(bs.sites, 2);
    assert!(approx(bs.precision, 0.5), "BareSingle precision {bs:?}");
    assert!(approx(bs.recall, 0.5), "BareSingle recall {bs:?}");

    let bm = report.class(HeuristicClass::BareMulti).unwrap();
    assert_eq!(bm.sites, 1);
    assert!(approx(bm.precision, 0.5), "BareMulti precision {bm:?}");
    assert!(approx(bm.recall, 1.0), "BareMulti recall {bm:?}");

    let ur = report.class(HeuristicClass::UnknownReceiver).unwrap();
    assert_eq!(ur.sites, 1);
    assert!(approx(ur.precision, 0.0), "UnknownReceiver precision {ur:?}");
    assert!(approx(ur.recall, 0.0), "UnknownReceiver recall {ur:?}");

    let tm = report.class(HeuristicClass::ThisMethod).unwrap();
    assert_eq!(tm.sites, 0);
    assert!(approx(tm.precision, 1.0));
    assert!(approx(tm.recall, 1.0));

    assert!(
        approx(report.overall_precision, 2.0 / 6.0),
        "overall precision {:?}",
        report.overall_precision
    );
    assert!(approx(report.overall_recall, 0.5), "overall recall {:?}", report.overall_recall);
}

#[test]
fn empty_heuristic_targets_is_a_recall_miss_only() {
    let outcomes = vec![
        outcome(HeuristicClass::BareSingle, &[], Some("foo")),
        outcome(HeuristicClass::BareSingle, &["foo"], Some("foo")),
    ];
    let report = accuracy_report(&outcomes);
    let bs = report.class(HeuristicClass::BareSingle).unwrap();
    assert_eq!(bs.sites, 2);
    assert!(approx(bs.precision, 1.0));
    assert!(approx(bs.recall, 0.5));
}

#[test]
fn empty_and_all_uncovered_are_vacuous() {
    let empty = accuracy_report(&vec![]);
    assert_eq!(empty.covered_sites, 0);
    assert_eq!(empty.uncovered_sites, 0);
    assert!(approx(empty.overall_precision, 1.0));
    assert!(approx(empty.overall_recall, 1.0));
    for m in &empty.per_class {
        assert_eq!(m.sites, 0);
        assert!(approx(m.precision, 1.0));
        assert!(approx(m.recall, 1.0));
    }

    let all_uncovered = accuracy_report(&vec![
        outcome(HeuristicClass::BareSingle, &["foo"], None),
        outcome(HeuristicClass::UnknownReceiver, &["a", "b"], None),
    ]);
    assert_eq!(all_uncovered.covered_sites, 0);
    assert_eq!(all_uncovered.uncovered_sites, 2);
    assert!(approx(all_uncovered.overall_precision, 1.0));
    assert!(approx(all_uncovered.overall_recall, 1.0));
}

#[test]
fn per_class_is_complete_and_ordered() {
    let report = accuracy_report(&vec![outcome(HeuristicClass::ThisMethod, &["m"], Some("m"))]);
    let classes: Vec<HeuristicClass> = report.per_class.iter().map(|m| m.class).collect();
    assert_eq!(classes, ALL_CLASSES.to_vec());
}

#[test]
fn by_band_is_complete_and_ordered() {
    let report = accuracy_report(&vec![outcome(HeuristicClass::BareSingle, &["foo"], Some("foo"))]);
    let bands: Vec<Band> = report.by_band.iter().map(|m| m.band).collect();
    assert_eq!(bands, ALL_BANDS.to_vec());
}

#[test]
fn bands_partition_by_heuristic_provenance_and_top_bands_are_none() {
    let outcomes = vec![
        outcome(HeuristicClass::BareSingle, &["foo"], Some("foo")),
        outcome(HeuristicClass::ThisMethod, &["m"], Some("m")),
        outcome(HeuristicClass::UnknownReceiver, &["a", "b"], Some("a")),
        outcome(HeuristicClass::BareMulti, &["x", "y"], Some("x")),
    ];
    let report = accuracy_report(&outcomes);

    let resolved = report.band(Band::Resolved).unwrap();
    assert_eq!(resolved.sites, 0);
    assert_eq!(resolved.precision, None, "RESOLVED must be None, not vacuous");
    let extracted = report.band(Band::Extracted).unwrap();
    assert_eq!(extracted.sites, 0);
    assert_eq!(extracted.precision, None);

    let inferred = report.band(Band::Inferred).unwrap();
    assert_eq!(inferred.sites, 2);
    assert_eq!(inferred.confirmed, 2);
    assert_eq!(inferred.denied, 0);
    assert!(approx(inferred.precision.unwrap(), 1.0));

    let amb = report.band(Band::Ambiguous).unwrap();
    assert_eq!(amb.sites, 2);
    assert_eq!(amb.confirmed, 2);
    assert_eq!(amb.denied, 2);
    assert!(approx(amb.precision.unwrap(), 0.5));
}

#[test]
fn empty_corpus_has_all_bands_none() {
    let report = accuracy_report(&vec![]);
    for m in &report.by_band {
        assert_eq!(m.sites, 0);
        assert_eq!(m.confirmed, 0);
        assert_eq!(m.denied, 0);
        assert_eq!(m.unadjudicable, 0);
        assert_eq!(m.precision, None, "{} must be None on empty", m.band.name());
    }
    assert!(report.check_band_monotonicity().is_ok());
}

#[test]
fn unadjudicable_sites_are_separated_from_precision() {
    let outcomes = vec![
        outcome(HeuristicClass::BareSingle, &["foo"], Some("foo")),
        outcome(HeuristicClass::BareSingle, &["bar"], None),
        outcome(HeuristicClass::UnknownReceiver, &["a", "b"], None),
    ];
    let report = accuracy_report(&outcomes);

    let inferred = report.band(Band::Inferred).unwrap();
    assert_eq!(inferred.sites, 1);
    assert_eq!(inferred.confirmed, 1);
    assert_eq!(inferred.denied, 0);
    assert_eq!(inferred.unadjudicable, 1);
    assert!(approx(inferred.precision.unwrap(), 1.0));

    let amb = report.band(Band::Ambiguous).unwrap();
    assert_eq!(amb.sites, 0);
    assert_eq!(amb.unadjudicable, 1);
    assert_eq!(amb.precision, None, "all-unadjudicable band must be None");

    assert_eq!(report.covered_sites, 1);
    assert_eq!(report.uncovered_sites, 2);
}

#[test]
fn monotonicity_passes_when_ordered_and_fails_when_inverted() {
    let ordered = accuracy_report(&vec![
        outcome(HeuristicClass::BareSingle, &["foo"], Some("foo")),
        outcome(HeuristicClass::UnknownReceiver, &["a", "b"], Some("a")),
    ]);
    assert!(
        ordered.check_band_monotonicity().is_ok(),
        "INFERRED 1.0 ≥ AMBIGUOUS 0.5 must pass: {:?}",
        ordered.check_band_monotonicity()
    );

    let inverted = accuracy_report(&vec![
        outcome(HeuristicClass::BareSingle, &["wrong"], Some("foo")),
        outcome(HeuristicClass::UnknownReceiver, &["a"], Some("a")),
    ]);
    let err = inverted.check_band_monotonicity().unwrap_err();
    assert!(
        err.contains("inverted") && err.contains("AMBIGUOUS"),
        "expected an inversion error mentioning AMBIGUOUS, got: {err}"
    );
}

#[test]
fn band_tallies_reconcile_with_overall() {
    let outcomes = vec![
        outcome(HeuristicClass::BareSingle, &["foo"], Some("foo")),
        outcome(HeuristicClass::BareMulti, &["x", "y"], Some("x")),
        outcome(HeuristicClass::ThisMethod, &[], Some("m")),
        outcome(HeuristicClass::UnknownReceiver, &["a", "b"], Some("c")),
        outcome(HeuristicClass::BareSingle, &["z"], None),
    ];
    let report = accuracy_report(&outcomes);

    let confirmed: usize = report.by_band.iter().map(|b| b.confirmed).sum();
    let denied: usize = report.by_band.iter().map(|b| b.denied).sum();
    let band_sites: usize = report.by_band.iter().map(|b| b.sites).sum();
    let unadj: usize = report.by_band.iter().map(|b| b.unadjudicable).sum();

    assert_eq!(confirmed, 2, "summed band confirmed must equal overall tp");
    assert_eq!(denied, 3, "summed band denied must equal overall fp");
    assert_eq!(band_sites, report.covered_sites);
    assert_eq!(unadj, report.uncovered_sites);
}

#[test]
fn bands_have_places_and_names() {
    for (i, b) in ALL_BANDS.iter().enumerate() {
        assert_eq!(b.index(), i);
    }
    assert_eq!(Band::Resolved.name(), "RESOLVED");
    assert_eq!(Band::from_provenance(Provenance::Ambiguous), Band::Ambiguous);
    for (i, c) in ALL_CLASSES.iter().enumerate() {
        assert_eq!(class_index(*c), i);
    }
}

#[test]
fn ratios_are_shown_to_four_places() {
    assert_eq!(show_ratio(ratio(1, 3)), "0.3333");
    assert_eq!(show_ratio(ratio(2, 3)), "0.6667");
    assert_eq!(show_ratio(ratio(1, 1)), "1.0000");
    assert_eq!(show_ratio(ratio(0, 5)), "0.0000");
}

const COUNTS: [usize; 16] = [
    1,
    2,
    3,
    7,
    1_000,
    19_999,
    20_000,
    99_999_999,
    500_000_000,
    500_000_001,
    1_000_000_000,
    (1 << 53) - 1,
    1 << 53,
    (1 << 53) + 1,
    (1 << 60) + 129,
    usize::MAX,
];

#[test]
fn ratios_are_shown_as_binary_fractions_round_them() {
    assert_eq!(show_ratio(ratio(1, 20_000)), "0.0001");
    assert_eq!(show_ratio(ratio(1, 32)), "0.0312");
    assert_eq!(show_ratio(ratio(3, 32)), "0.0938");
    for n in 0..200 {
        for d in [1, 3, 32, 200, 625, 2_000, 20_000] {
            if n <= d {
                assert_eq!(show_ratio(ratio(n, d)), format!("{:.4}", n as f64 / d as f64), "{n}/{d}");
            }
        }
    }
    for n in COUNTS {
        for d in COUNTS {
            if n <= d {
                assert_eq!(show_ratio(ratio(n, d)), format!("{:.4}", n as f64 / d as f64), "{n}/{d}");
            }
        }
    }
}

fn two_bands(high: Ratio, low: Ratio) -> AccuracyReport {
    let metrics = |band: Band, precision: Ratio| BandMetrics {
        band,
        sites: 1,
        confirmed: precision.numer,
        denied: precision.denom - precision.numer,
        precision: Some(precision),
        unadjudicable: 0,
    };
    AccuracyReport {
        by_band: vec![metrics(Band::Inferred, high), metrics(Band::Ambiguous, low)],
        ..accuracy_report(&vec![])
    }
}

#[test]
fn bands_are_compared_with_a_billionth_to_spare() {
    let mut ratios: Vec<Ratio> = Vec::new();
    for n in COUNTS {
        for d in COUNTS {
            if n <= d {
                ratios.push(ratio(n, d));
            }
        }
    }
    for n in 499_999_998..500_000_004 {
        ratios.push(ratio(n, 1_000_000_000));
    }
    ratios.push(ratio(0, 1));
    for hi in &ratios {
        for p in &ratios {
            let inverted = value(*p) > value(*hi) + 1e-9;
            let found = two_bands(*hi, *p).check_band_monotonicity();
            assert_eq!(found.is_err(), inverted, "{p:?} over {hi:?}");
            if let Err(text) = found {
                let said = format!(
                    "band calibration inverted: AMBIGUOUS precision {:.4} > higher band INFERRED precision {:.4} \
                     — a higher-confidence band must not resolve less reliably (§4.1)",
                    value(*p),
                    value(*hi)
                );
                assert_eq!(text, said);
            }
        }
    }
}

#[test]
fn the_order_of_outcomes_does_not_matter() {
    let outcomes = || {
        vec![
            outcome(HeuristicClass::BareSingle, &["foo"], Some("foo")),
            outcome(HeuristicClass::BareMulti, &["x", "y"], Some("x")),
            outcome(HeuristicClass::ThisMethod, &[], Some("m")),
            outcome(HeuristicClass::UnknownReceiver, &["a", "b"], Some("c")),
            outcome(HeuristicClass::BareSingle, &["z"], None),
        ]
    };
    let report = accuracy_report(&outcomes());
    for shift in 1..5 {
        let mut turned = outcomes();
        turned.rotate_left(shift);
        assert_eq!(accuracy_report(&turned), report);
        turned.reverse();
        assert_eq!(accuracy_report(&turned), report);
    }
}
