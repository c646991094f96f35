use gliderlist::grouper::{group, ClassCategory};
use gliderlist::model::Model;

fn model(name: &str, handicap: u32, flags: &[&str], audit_delta: bool) -> Model {
    Model {
        name: name.as_bytes().to_vec(),
        handicap,
        class_flags: flags.iter().map(|f| f.as_bytes().to_vec()).collect(),
        audit_delta,
    }
}

fn category(flag: &str, label: &str) -> ClassCategory {
    ClassCategory {
        flag: flag.as_bytes().to_vec(),
        label: label.as_bytes().to_vec(),
    }
}

fn catalog() -> Vec<ClassCategory> {
    vec![
        category("Open", "Offene Klasse"),
        category("18", "18m Klasse"),
        category("15", "15m Klasse"),
        category("Standard", "Standardklasse"),
        category("Club", "Clubklasse"),
        category("Double", "Doppelsitzer"),
    ]
}

#[test]
fn sections_follow_catalog_order() {
    let roster = vec![
        model("LS8", 114, &["15"], false),
        model("Nimbus 4", 124, &["Open"], false),
    ];
    let out = group(&roster, &catalog());
    assert_eq!(out.len(), 6);
    assert_eq!(out[0].label, b"Offene Klasse".to_vec());
    assert_eq!(out[1].label, b"18m Klasse".to_vec());
    assert_eq!(out[2].label, b"15m Klasse".to_vec());
    assert_eq!(out[3].label, b"Standardklasse".to_vec());
    assert_eq!(out[4].label, b"Clubklasse".to_vec());
    assert_eq!(out[5].label, b"Doppelsitzer".to_vec());
}

#[test]
fn buckets_descend_by_handicap() {
    let roster = vec![
        model("LS4", 104, &["Club"], false),
        model("ASW 19", 100, &["Club"], false),
        model("LS7", 107, &["Club"], false),
        model("Cirrus", 100, &["Club"], false),
    ];
    let out = group(&roster, &vec![category("Club", "Clubklasse")]);
    assert_eq!(out.len(), 1);
    let buckets = &out[0].buckets;
    assert_eq!(buckets.len(), 3);
    assert_eq!(buckets[0].handicap, 107);
    assert_eq!(buckets[1].handicap, 104);
    assert_eq!(buckets[2].handicap, 100);
    for pair in buckets.windows(2) {
        assert!(pair[0].handicap > pair[1].handicap);
    }
}

#[test]
fn entries_within_bucket_ascend_by_name() {
    let roster = vec![
        model("ASW 22", 118, &["Open"], false),
        model("ASW 20", 118, &["Open"], false),
        model("ASH 25", 118, &["Open"], false),
    ];
    let out = group(&roster, &vec![category("Open", "Offene Klasse")]);
    let buckets = &out[0].buckets;
    assert_eq!(buckets.len(), 1);
    let names: Vec<&[u8]> = buckets[0].entries.iter().map(|e| e.name.as_slice()).collect();
    assert_eq!(
        names,
        vec![b"ASH 25".as_slice(), b"ASW 20".as_slice(), b"ASW 22".as_slice()]
    );
}

#[test]
fn audit_delta_carries_through() {
    let roster = vec![
        model("LS8", 114, &["15"], true),
        model("Discus", 108, &["15"], false),
    ];
    let out = group(&roster, &vec![category("15", "15m Klasse")]);
    let buckets = &out[0].buckets;
    assert_eq!(buckets.len(), 2);
    assert_eq!(buckets[0].entries[0].name, b"LS8".to_vec());
    assert!(buckets[0].entries[0].audit_delta);
    assert_eq!(buckets[1].entries[0].name, b"Discus".to_vec());
    assert!(!buckets[1].entries[0].audit_delta);
}

#[test]
fn class_without_members_yields_empty_section() {
    let roster = vec![model("LS8", 114, &["15"], false)];
    let out = group(&roster, &catalog());
    // The 15m section is filled, every other section is present but empty.
    assert_eq!(out.len(), 6);
    assert_eq!(out[2].buckets.len(), 1);
    for (i, sec) in out.iter().enumerate() {
        if i != 2 {
            assert!(sec.buckets.is_empty());
        }
    }
}

#[test]
fn model_in_multiple_classes_appears_in_each_section() {
    let roster = vec![model("LS8 neo", 114, &["15", "Standard"], false)];
    let out = group(&roster, &catalog());
    assert_eq!(out[2].buckets.len(), 1);
    assert_eq!(out[2].buckets[0].entries[0].name, b"LS8 neo".to_vec());
    assert_eq!(out[3].buckets.len(), 1);
    assert_eq!(out[3].buckets[0].entries[0].name, b"LS8 neo".to_vec());
}

#[test]
fn duplicate_names_share_a_bucket() {
    // Two rows under one name (a re-certification): both entries survive.
    let roster = vec![
        model("Ka 6", 82, &["Club"], false),
        model("Ka 6", 82, &["Club"], true),
    ];
    let out = group(&roster, &vec![category("Club", "Clubklasse")]);
    let buckets = &out[0].buckets;
    assert_eq!(buckets.len(), 1);
    assert_eq!(buckets[0].entries.len(), 2);
    assert_eq!(buckets[0].entries[0].name, b"Ka 6".to_vec());
    assert_eq!(buckets[0].entries[1].name, b"Ka 6".to_vec());
}

#[test]
fn group_is_deterministic() {
    let roster = vec![
        model("LS4", 104, &["Club", "Standard"], false),
        model("ASW 19", 100, &["Club"], true),
        model("LS7", 107, &["15"], false),
        model("Cirrus", 100, &["Club", "Open"], false),
    ];
    let first = group(&roster, &catalog());
    let second = group(&roster, &catalog());
    assert_eq!(first, second);
}

#[test]
fn empty_roster_yields_all_sections_empty() {
    let roster: Vec<Model> = Vec::new();
    let out = group(&roster, &catalog());
    assert_eq!(out.len(), 6);
    for sec in &out {
        assert!(sec.buckets.is_empty());
    }
}
