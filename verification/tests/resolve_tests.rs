use dcmsort::dicom::{DicomMeta, GeomOrder};
use dcmsort::digits::{dec_string, dec_string_i32, padded5_string};
use dcmsort::fs_ops::{probe_candidate, resolve_all, unique_path};
use dcmsort::plan::Plan;

fn bare_meta(path: &str) -> DicomMeta {
    DicomMeta {
        path: path.to_string(),
        patient_id: None,
        patient_name: None,
        study_uid: None,
        series_uid: None,
        sop_uid: None,
        modality: None,
        study_date: None,
        series_number: None,
        instance_number: None,
        study_description: None,
        series_description: None,
        geom: GeomOrder::Missing,
    }
}

fn plan(src: &str, dst: &str) -> Plan {
    Plan {
        src: src.to_string(),
        dst: dst.to_string(),
        meta: bare_meta(src),
    }
}

#[test]
fn test_probe_candidate_forms() {
    assert_eq!(
        probe_candidate(&"out/SE1/00001_A.dcm".to_string(), 1),
        "out/SE1/00001_A_1.dcm"
    );
    assert_eq!(probe_candidate(&"out/noext".to_string(), 3), "out/noext_3");
    assert_eq!(probe_candidate(&"out/.hidden".to_string(), 2), "out/.hidden_2");
    assert_eq!(probe_candidate(&"a.b/plain".to_string(), 1), "a.b/plain_1");
}

#[test]
fn test_unique_path_free_destination_unchanged() {
    let taken: Vec<String> = vec!["out/other.dcm".to_string()];
    let r = unique_path(&"out/file.dcm".to_string(), &taken);
    assert_eq!(r, "out/file.dcm");
}

#[test]
fn test_unique_path_probes_past_taken_names() {
    let taken: Vec<String> = vec![
        "out/file.dcm".to_string(),
        "out/file_1.dcm".to_string(),
        "out/file_2.dcm".to_string(),
    ];
    let r = unique_path(&"out/file.dcm".to_string(), &taken);
    assert_eq!(r, "out/file_3.dcm");
}

#[test]
fn test_second_colliding_entry_gets_suffix() {
    // Two entries compute the identical destination: the second resolves to
    // `name_1.dcm` instead of overwriting the first.
    let plans = vec![
        plan("in/a.dcm", "out/SE1/00001_A.dcm"),
        plan("in/b.dcm", "out/SE1/00001_A.dcm"),
    ];
    let existing: Vec<String> = Vec::new();
    let resolved = resolve_all(&plans, &existing);
    assert_eq!(resolved[0], "out/SE1/00001_A.dcm");
    assert_eq!(resolved[1], "out/SE1/00001_A_1.dcm");
}

#[test]
fn test_existing_destination_avoided() {
    let plans = vec![plan("in/a.dcm", "out/x.dcm")];
    let existing = vec!["out/x.dcm".to_string()];
    let resolved = resolve_all(&plans, &existing);
    assert_eq!(resolved[0], "out/x_1.dcm");
    assert_ne!(resolved[0], plans[0].dst);
}

#[test]
fn test_decimal_rendering() {
    assert_eq!(dec_string(0), "0");
    assert_eq!(dec_string(90210), "90210");
    assert_eq!(dec_string_i32(-2147483648), "-2147483648");
    assert_eq!(dec_string_i32(17), "17");
    assert_eq!(padded5_string(1), "00001");
    assert_eq!(padded5_string(123456), "123456");
}
