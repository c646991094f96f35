use gliderlist::classifier::{classify, ClassSpec, Score};
use gliderlist::model::Model;

fn model(name: &str, handicap: u32, flags: &[&str], audit_delta: bool) -> Model {
    Model {
        name: name.as_bytes().to_vec(),
        handicap,
        class_flags: flags.iter().map(|f| f.as_bytes().to_vec()).collect(),
        audit_delta,
    }
}

fn spec(title: &str, reference: u32, cutoff: u32, flag: &str) -> ClassSpec {
    ClassSpec {
        title: title.as_bytes().to_vec(),
        reference,
        cutoff,
        flag: flag.as_bytes().to_vec(),
    }
}

#[test]
fn fifteen_metre_scenario() {
    let roster = vec![
        model("LS8", 114, &["15m"], false),
        model("Discus", 108, &["15m"], false),
    ];
    let cs = spec("15m Klasse", 114, 106, "15m");
    let c = classify(&roster, &cs);

    assert_eq!(c.title, b"15m Klasse".to_vec());
    assert_eq!(c.reference, 114);
    assert_eq!(c.cutoff, 106);
    assert_eq!(c.entries.len(), 2);
    // Input order is preserved; both pass the 106 cutoff.
    assert_eq!(c.entries[0].name, b"LS8".to_vec());
    assert_eq!(c.entries[0].score, Score { num: 114, den: 114 });
    assert_eq!(c.entries[0].score.thousandths(), 1000);
    assert_eq!(c.entries[1].name, b"Discus".to_vec());
    assert_eq!(c.entries[1].score, Score { num: 108, den: 114 });
    // 108 / 114 = 0.9473... which rounds to 0.947.
    assert_eq!(c.entries[1].score.thousandths(), 947);
}

#[test]
fn cutoff_is_inclusive() {
    let roster = vec![
        model("AtCutoff", 106, &["15m"], false),
        model("JustBelow", 105, &["15m"], false),
    ];
    let c = classify(&roster, &spec("15m Klasse", 114, 106, "15m"));
    assert_eq!(c.entries.len(), 1);
    assert_eq!(c.entries[0].name, b"AtCutoff".to_vec());
    assert_eq!(c.entries[0].score, Score { num: 106, den: 114 });
}

#[test]
fn rescale_uses_raw_handicap_and_reference() {
    let roster = vec![
        model("A", 110, &["Std"], false),
        model("B", 102, &["Std"], false),
        model("C", 120, &["Std"], false),
    ];
    let c = classify(&roster, &spec("Standardklasse", 110, 102, "Std"));
    assert_eq!(c.entries.len(), 3);
    for e in &c.entries {
        assert_eq!(e.score.den, 110);
        assert!(e.score.num >= 102);
    }
    assert_eq!(c.entries[0].score.thousandths(), 1000);
    assert_eq!(c.entries[1].score.thousandths(), 927); // 102/110 = 0.92727...
    assert_eq!(c.entries[2].score.thousandths(), 1091); // 120/110 = 1.0909...
}

#[test]
fn thousandths_rounds_half_up() {
    assert_eq!(Score { num: 1, den: 3 }.thousandths(), 333); // 0.3333...
    assert_eq!(Score { num: 2, den: 3 }.thousandths(), 667); // 0.6666...
    assert_eq!(Score { num: 1, den: 2000 }.thousandths(), 1); // exactly 0.0005
    assert_eq!(Score { num: 3, den: 2000 }.thousandths(), 2); // exactly 0.0015
    assert_eq!(Score { num: 0, den: 7 }.thousandths(), 0);
}

#[test]
fn empty_class_yields_empty_entries() {
    let roster = vec![
        model("LS8", 114, &["15m"], false),
        model("Nimbus", 122, &["Open"], false),
    ];
    let c = classify(&roster, &spec("Clubklasse", 98, 90, "Club"));
    assert_eq!(c.title, b"Clubklasse".to_vec());
    assert_eq!(c.entries.len(), 0);
}

#[test]
fn empty_roster_yields_empty_entries() {
    let roster: Vec<Model> = Vec::new();
    let c = classify(&roster, &spec("15m Klasse", 114, 106, "15m"));
    assert!(c.entries.is_empty());
}

#[test]
fn multi_class_model_appears_in_each_class() {
    let roster = vec![
        model("LS8", 114, &["15m", "Std"], false),
        model("Discus", 108, &["Std"], false),
    ];
    let m15 = classify(&roster, &spec("15m Klasse", 114, 106, "15m"));
    let std_class = classify(&roster, &spec("Standardklasse", 110, 102, "Std"));

    assert_eq!(m15.entries.len(), 1);
    assert_eq!(m15.entries[0].name, b"LS8".to_vec());
    assert_eq!(m15.entries[0].score, Score { num: 114, den: 114 });

    assert_eq!(std_class.entries.len(), 2);
    assert_eq!(std_class.entries[0].name, b"LS8".to_vec());
    assert_eq!(std_class.entries[0].score, Score { num: 114, den: 110 });
    assert_eq!(std_class.entries[1].name, b"Discus".to_vec());
    assert_eq!(std_class.entries[1].score, Score { num: 108, den: 110 });
}

#[test]
fn classify_is_deterministic() {
    let roster = vec![
        model("LS8", 114, &["15m"], true),
        model("Discus", 108, &["15m"], false),
        model("LS4", 104, &["15m", "Club"], false),
    ];
    let cs = spec("15m Klasse", 114, 106, "15m");
    let first = classify(&roster, &cs);
    let second = classify(&roster, &cs);
    assert_eq!(first, second);
}

#[test]
fn identity_fields_carry_through() {
    let roster = vec![model("Ventus", 112, &["15m", "Open"], false)];
    let c = classify(&roster, &spec("15m Klasse", 114, 106, "15m"));
    assert_eq!(c.entries.len(), 1);
    assert_eq!(c.entries[0].name, b"Ventus".to_vec());
    assert_eq!(
        c.entries[0].class_flags,
        vec![b"15m".to_vec(), b"Open".to_vec()]
    );
    // The original model is untouched: raw handicap still in place.
    assert_eq!(roster[0].handicap, 112);
}
