use dcmsort::dicom::{DicomMeta, GeomOrder};
use dcmsort::plan::{build_dst, group_records, plan_operations};
use dcmsort::sanitize::sanitize_component;
use dcmsort::sort::{compare, order};
use dcmsort::types::{Layout, SortBy};
use std::cmp::Ordering;

fn meta(
    path: &str,
    study: Option<&str>,
    series: Option<&str>,
    sop: Option<&str>,
    inst: Option<i32>,
    geom: GeomOrder,
) -> DicomMeta {
    DicomMeta {
        path: path.to_string(),
        patient_id: None,
        patient_name: None,
        study_uid: study.map(|s| s.to_string()),
        series_uid: series.map(|s| s.to_string()),
        sop_uid: sop.map(|s| s.to_string()),
        modality: None,
        study_date: None,
        series_number: None,
        instance_number: inst,
        study_description: None,
        series_description: None,
        geom,
    }
}

#[test]
fn test_auto_instance_fallback_series_only() {
    // Three siblings without geometry: Auto falls back to instance order.
    let metas = vec![
        meta("in/x3.dcm", Some("S1"), Some("SE1"), Some("C"), Some(3), GeomOrder::Missing),
        meta("in/x1.dcm", Some("S1"), Some("SE1"), Some("A"), Some(1), GeomOrder::Missing),
        meta("in/x2.dcm", Some("S1"), Some("SE1"), Some("B"), Some(2), GeomOrder::Missing),
    ];
    let plans = plan_operations(&metas, "out", Layout::SeriesOnly, SortBy::Auto, false);
    assert_eq!(plans.len(), 3);
    assert_eq!(plans[0].src, "in/x1.dcm");
    assert_eq!(plans[0].dst, "out/SE1/00001_A.dcm");
    assert_eq!(plans[1].src, "in/x2.dcm");
    assert_eq!(plans[1].dst, "out/SE1/00002_B.dcm");
    assert_eq!(plans[2].src, "in/x3.dcm");
    assert_eq!(plans[2].dst, "out/SE1/00003_C.dcm");
}

#[test]
fn test_auto_uses_geometry_when_all_ranked() {
    // Every sibling has a ranked geometric order: Auto sorts by it, even
    // against the instance numbers.
    let metas = vec![
        meta("in/a.dcm", Some("S1"), Some("SE1"), Some("A"), Some(3), GeomOrder::Ranked(10)),
        meta("in/b.dcm", Some("S1"), Some("SE1"), Some("B"), Some(1), GeomOrder::Ranked(30)),
        meta("in/c.dcm", Some("S1"), Some("SE1"), Some("C"), Some(2), GeomOrder::Ranked(20)),
    ];
    let plans = plan_operations(&metas, "out", Layout::SeriesOnly, SortBy::Auto, false);
    assert_eq!(plans[0].dst, "out/SE1/00001_A.dcm");
    assert_eq!(plans[1].dst, "out/SE1/00002_C.dcm");
    assert_eq!(plans[2].dst, "out/SE1/00003_B.dcm");
}

#[test]
fn test_auto_one_missing_geometry_forces_instance() {
    // A single record without geometry drags the whole group to instance
    // order, including the records that had geometry.
    let metas = vec![
        meta("in/a.dcm", Some("S1"), Some("SE1"), Some("A"), Some(2), GeomOrder::Ranked(10)),
        meta("in/b.dcm", Some("S1"), Some("SE1"), Some("B"), Some(1), GeomOrder::Missing),
    ];
    let plans = plan_operations(&metas, "out", Layout::SeriesOnly, SortBy::Auto, false);
    assert_eq!(plans[0].dst, "out/SE1/00001_B.dcm");
    assert_eq!(plans[1].dst, "out/SE1/00002_A.dcm");
}

#[test]
fn test_missing_instance_sorts_last_and_tie_break() {
    let a = meta("in/a.dcm", Some("S"), Some("SE"), Some("Z"), None, GeomOrder::Missing);
    let b = meta("in/b.dcm", Some("S"), Some("SE"), Some("Y"), Some(7), GeomOrder::Missing);
    assert_eq!(compare(&b, &a, false), Ordering::Less);
    assert_eq!(compare(&a, &b, false), Ordering::Greater);
    // both missing: lexicographic stable id
    let c = meta("in/c.dcm", Some("S"), Some("SE"), Some("Q"), None, GeomOrder::Missing);
    assert_eq!(compare(&c, &a, false), Ordering::Less);
}

#[test]
fn test_stable_id_falls_back_to_file_name() {
    let m = meta("dir/sub/file77.dcm", None, None, None, None, GeomOrder::Missing);
    assert_eq!(m.stable_id(), "file77.dcm");
    let n = meta(
        "p.dcm",
        None,
        None,
        Some("9.8.7"),
        None,
        GeomOrder::Missing,
    );
    assert_eq!(n.stable_id(), "9.8.7");
}

#[test]
fn test_group_records_partition() {
    let metas = vec![
        meta("1", Some("S1"), Some("SE1"), Some("A"), None, GeomOrder::Missing),
        meta("2", Some("S1"), Some("SE2"), Some("B"), None, GeomOrder::Missing),
        meta("3", Some("S1"), Some("SE1"), Some("C"), None, GeomOrder::Missing),
        meta("4", None, None, Some("D"), None, GeomOrder::Missing),
    ];
    let gs = group_records(&metas);
    assert_eq!(gs.len(), 3);
    let mut total: usize = 0;
    for g in &gs {
        total += g.items.len();
        for it in &g.items {
            let study = it.study_uid.clone().unwrap_or("UNKNOWN_STUDY".to_string());
            let series = it.series_uid.clone().unwrap_or("UNKNOWN_SERIES".to_string());
            assert_eq!(study, g.study);
            assert_eq!(series, g.series);
        }
    }
    assert_eq!(total, 4);
}

#[test]
fn test_sentinel_components_in_path() {
    let metas = vec![meta("1", None, None, None, None, GeomOrder::Missing)];
    let plans = plan_operations(&metas, "out", Layout::PatientStudySeries, SortBy::Auto, false);
    assert_eq!(
        plans[0].dst,
        "out/UNKNOWN_PATIENT/UNKNOWN_STUDY/UNKNOWN_SERIES/00001_UNKNOWN_SOP.dcm"
    );
}

#[test]
fn test_phi_excluded_by_default() {
    let mut a = meta("1", Some("S1"), Some("SE1"), Some("A"), Some(1), GeomOrder::Missing);
    a.patient_id = Some("P1".to_string());
    let mut b = a.duplicate();
    b.patient_name = Some("DOE^JOHN".to_string());
    b.study_description = Some("Head CT".to_string());
    b.series_description = Some("Axial".to_string());
    b.study_date = Some("20260101".to_string());
    let da = build_dst("out", Layout::PatientStudySeries, false, &a, 0);
    let db = build_dst("out", Layout::PatientStudySeries, false, &b, 0);
    assert_eq!(da, db);
    assert_eq!(da, "out/P1/S1/SE1/00001_A.dcm");
    assert!(!da.contains("DOE"));
}

#[test]
fn test_phi_included_on_request() {
    let mut a = meta("1", Some("S1"), Some("SE1"), Some("A"), Some(1), GeomOrder::Missing);
    a.patient_id = Some("P1".to_string());
    a.patient_name = Some("DOE^JOHN".to_string());
    a.study_date = Some("20260101".to_string());
    a.study_description = Some("Head CT".to_string());
    a.modality = Some("CT".to_string());
    a.series_number = Some(-2);
    a.series_description = Some("Axial".to_string());
    let d = build_dst("out", Layout::PatientStudySeries, true, &a, 0);
    assert_eq!(
        d,
        "out/P1_DOE_JOHN/20260101_Head_CT_S1/CT_-2_Axial_SE1/00001_A.dcm"
    );
}

#[test]
fn test_layouts_select_components() {
    let m = meta("1", Some("S1"), Some("SE1"), Some("A"), Some(1), GeomOrder::Missing);
    assert_eq!(
        build_dst("out", Layout::StudySeries, false, &m, 0),
        "out/S1/SE1/00001_A.dcm"
    );
    assert_eq!(
        build_dst("out", Layout::Flat, false, &m, 4),
        "out/00005_A.dcm"
    );
}

#[test]
fn test_order_is_permutation_and_sorted() {
    let group = vec![
        meta("1", Some("S"), Some("SE"), Some("B"), Some(2), GeomOrder::Missing),
        meta("2", Some("S"), Some("SE"), Some("A"), Some(1), GeomOrder::Missing),
    ];
    let r = order(group, SortBy::Instance);
    assert_eq!(r.len(), 2);
    assert_eq!(r[0].instance_number, Some(1));
    assert_eq!(r[1].instance_number, Some(2));
}

#[test]
fn test_incomparable_geometry_ties_to_stable_id() {
    // An incomparable scalar still counts as usable geometry under Auto,
    // but every comparison against it falls through to the stable id.
    let metas = vec![
        meta("in/a.dcm", Some("S1"), Some("SE1"), Some("B"), Some(1), GeomOrder::Ranked(5)),
        meta("in/b.dcm", Some("S1"), Some("SE1"), Some("A"), Some(2), GeomOrder::Incomparable),
    ];
    let plans = plan_operations(&metas, "out", Layout::SeriesOnly, SortBy::Auto, false);
    assert_eq!(plans[0].dst, "out/SE1/00001_A.dcm");
    assert_eq!(plans[1].dst, "out/SE1/00002_B.dcm");
}

#[test]
fn test_sanitize_idempotent_examples() {
    for raw in ["  we?ird//name  ", "...CON...", "Test_File-01.dcm", "文件名"] {
        let once = sanitize_component(raw);
        assert_eq!(sanitize_component(&once), once);
    }
}

#[test]
fn test_index_padding_beyond_five_digits() {
    let m = meta("1", Some("S"), Some("SE"), Some("A"), None, GeomOrder::Missing);
    let d = build_dst("out", Layout::Flat, false, &m, 123455);
    assert_eq!(d, "out/123456_A.dcm");
}
