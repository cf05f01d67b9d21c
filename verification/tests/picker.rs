use cargo_downgrade::pick::{find_appropriate_version, Package, VersionRecord};

fn rec(num: &str, published_at: i64, yanked: bool) -> VersionRecord {
    VersionRecord { num: num.to_string(), published_at, yanked }
}

// Seconds since the epoch for a few calendar dates.
const JAN_1_2020: i64 = 1577836800;
const JAN_1_2021: i64 = 1609459200;
const FEB_1_2021: i64 = 1612137600;
const FEB_15_2021: i64 = 1613347200;
const MAR_1_2021: i64 = 1614556800;

#[test]
fn picks_newest_unyanked_before_cutoff() {
    let versions = vec![
        rec("1.0.0", JAN_1_2021, false),
        rec("1.0.1", FEB_1_2021, false),
        rec("1.0.2", MAR_1_2021, true),
    ];
    let r = find_appropriate_version("demo", &versions, FEB_15_2021).unwrap();
    assert_eq!(r.name, "demo");
    assert_eq!(r.version, "1.0.1");
}

#[test]
fn fails_before_first_release_with_hint() {
    let versions = vec![rec("1.0.0", JAN_1_2021, false)];
    let e = find_appropriate_version("demo", &versions, JAN_1_2020).unwrap_err();
    assert_eq!(e.name, "demo");
    let hint = e.oldest_unyanked.unwrap();
    assert_eq!(hint.num, "1.0.0");
    assert_eq!(hint.published_at, JAN_1_2021);
}

#[test]
fn hint_is_oldest_unyanked() {
    let versions = vec![
        rec("0.2.0", FEB_1_2021, false),
        rec("0.1.0", JAN_1_2021, true),
        rec("0.3.0", MAR_1_2021, false),
    ];
    let e = find_appropriate_version("demo", &versions, JAN_1_2020).unwrap_err();
    assert_eq!(e.oldest_unyanked.unwrap().num, "0.2.0");
}

#[test]
fn version_published_at_cutoff_does_not_qualify() {
    let versions = vec![rec("1.0.0", FEB_1_2021, false), rec("1.1.0", FEB_15_2021, false)];
    let r = find_appropriate_version("demo", &versions, FEB_15_2021).unwrap();
    assert_eq!(r.version, "1.0.0");
}

#[test]
fn yanked_versions_are_invisible_to_selection() {
    let versions = vec![rec("1.0.0", JAN_1_2021, false), rec("1.0.1", FEB_1_2021, true)];
    let r = find_appropriate_version("demo", &versions, FEB_15_2021).unwrap();
    assert_eq!(r.version, "1.0.0");
}

#[test]
fn all_versions_yanked_gives_no_hint() {
    let versions = vec![rec("1.0.0", JAN_1_2021, true), rec("1.0.1", FEB_1_2021, true)];
    let e = find_appropriate_version("demo", &versions, MAR_1_2021).unwrap_err();
    assert!(e.oldest_unyanked.is_none());
}

#[test]
fn no_versions_at_all() {
    let versions: Vec<VersionRecord> = vec![];
    let e = find_appropriate_version("demo", &versions, FEB_15_2021).unwrap_err();
    assert!(e.oldest_unyanked.is_none());
}

#[test]
fn pick_is_invariant_to_input_order() {
    let sorted = vec![
        rec("1.0.0", JAN_1_2021, false),
        rec("1.0.1", FEB_1_2021, false),
        rec("1.0.2", MAR_1_2021, true),
    ];
    let shuffled = vec![
        rec("1.0.2", MAR_1_2021, true),
        rec("1.0.0", JAN_1_2021, false),
        rec("1.0.1", FEB_1_2021, false),
    ];
    let a = find_appropriate_version("demo", &sorted, FEB_15_2021).unwrap();
    let b = find_appropriate_version("demo", &shuffled, FEB_15_2021).unwrap();
    assert_eq!(a.version, b.version);
    let ea = find_appropriate_version("demo", &sorted, JAN_1_2020).unwrap_err();
    let eb = find_appropriate_version("demo", &shuffled, JAN_1_2020).unwrap_err();
    assert_eq!(ea.oldest_unyanked.unwrap().num, eb.oldest_unyanked.unwrap().num);
}

#[test]
fn pin_line_format() {
    let p = Package { name: "serde".to_string(), version: "1.0.123".to_string() };
    assert_eq!(p.pin_line(), "serde = \"=1.0.123\"");
}
